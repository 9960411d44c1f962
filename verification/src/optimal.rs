//! No code tree gives a shorter payload than the one that is built by
//! merging the two lightest trees again and again.

use crate::codec::{cost_below, lemma_payload_len, payload};
use crate::exchange::{
    collapse, cost, deep_left, deep_right, depth, distinct, lemma_bump, lemma_collapse,
    lemma_deep, lemma_exchange, load,
};
use crate::heap::{min_index, total_weight};
use crate::invariants::{
    heap_wf, kept_index, kept_place, lemma_count_single, lemma_huffman_tree_well_formed,
    lemma_leaves_wf, lemma_merge_step_shape, lemma_merge_step_wf, second_place,
};
use crate::tree::Tree;
use crate::{
    count, huffman_tree, lemma_count_bound, lemma_count_positive, lemma_count_total,
    lemma_leaves_contain, lemma_leaves_weight, leaves_upto, merge_all, merge_step,
};
use vstd::prelude::*;

verus! {

/// The symbol that stands for a tree among others: that of its leftmost
/// leaf.
pub open spec fn rep(t: Tree) -> u8
    decreases t,
{
    match t {
        Tree::Leaf { byte, .. } => byte,
        Tree::Branch { left, .. } => rep(*left),
    }
}

/// Some tree of the queue is stood for by `b`.
pub open spec fn in_reps(heap: Seq<Tree>, b: u8) -> bool {
    exists|i: int| 0 <= i < heap.len() && rep(#[trigger] heap[i]) == b
}

/// The place of the tree that `b` stands for.
pub open spec fn place_of(heap: Seq<Tree>, b: u8) -> int {
    choose|i: int| 0 <= i < heap.len() && rep(#[trigger] heap[i]) == b
}

/// The weight of the tree that a symbol stands for; 0 for other symbols.
pub open spec fn forest_weights(heap: Seq<Tree>) -> spec_fn(u8) -> int {
    |b: u8|
        if in_reps(heap, b) {
            heap[place_of(heap, b)].weight() as int
        } else {
            0
        }
}

/// How often each symbol occurs in `s`.
pub open spec fn counts(s: Seq<u8>) -> spec_fn(u8) -> int {
    |b: u8| count(s, b) as int
}

/// What merging the queue down to one tree adds to the cost: at each
/// merge, the weights of the two trees that are merged.
pub open spec fn added_cost(heap: Seq<Tree>) -> int
    decreases heap.len(),
{
    if heap.len() <= 1 {
        0
    } else {
        let next = merge_step(heap);
        if next.len() < heap.len() {
            heap[min_index(heap)].weight() + heap[second_place(heap)].weight() + added_cost(next)
        } else {
            0
        }
    }
}

/// The costs of the trees of the queue, added up.
pub open spec fn sum_cost(heap: Seq<Tree>, w: spec_fn(u8) -> int) -> int
    decreases heap.len(),
{
    if heap.len() == 0 {
        0
    } else {
        sum_cost(heap.drop_last(), w) + cost(heap.last(), w)
    }
}

/// `t` joins the trees of the queue: it has one leaf for each of them,
/// under the symbol that stands for it.
pub open spec fn covers(t: Tree, heap: Seq<Tree>) -> bool {
    &&& distinct(t)
    &&& forall|b: u8| t.contains(b) <==> in_reps(heap, b)
}

/// A well-formed tree has no symbol at two leaves.
pub proof fn lemma_wf_distinct(t: Tree)
    requires
        t.well_formed(),
    ensures
        distinct(t),
    decreases t,
{
    match t {
        Tree::Leaf { .. } => {},
        Tree::Branch { left, right, .. } => {
            lemma_wf_distinct(*left);
            lemma_wf_distinct(*right);
        },
    }
}

proof fn lemma_rep(t: Tree)
    ensures
        t.contains(rep(t)),
    decreases t,
{
    match t {
        Tree::Leaf { .. } => {},
        Tree::Branch { left, .. } => {
            lemma_rep(*left);
        },
    }
}

proof fn lemma_reps_differ(heap: Seq<Tree>, i: int, k: int)
    requires
        heap_wf(heap),
        0 <= i < heap.len(),
        0 <= k < heap.len(),
        rep(heap[i]) == rep(heap[k]),
    ensures
        i == k,
{
    lemma_rep(heap[i]);
    lemma_rep(heap[k]);
    let b = rep(heap[i]);
    if i != k {
        assert(!(heap[i].contains(b) && heap[k].contains(b)));
    }
}

proof fn lemma_weight_at(heap: Seq<Tree>, i: int)
    requires
        heap_wf(heap),
        0 <= i < heap.len(),
    ensures
        in_reps(heap, rep(heap[i])),
        place_of(heap, rep(heap[i])) == i,
        forest_weights(heap)(rep(heap[i])) == heap[i].weight(),
{
    let b = rep(heap[i]);
    assert(in_reps(heap, b));
    lemma_reps_differ(heap, i, place_of(heap, b));
}

proof fn lemma_cost_nonneg(t: Tree, w: spec_fn(u8) -> int)
    requires
        forall|b: u8| t.contains(b) ==> 0 <= w(b),
    ensures
        0 <= load(t, w),
        0 <= cost(t, w),
    decreases t,
{
    match t {
        Tree::Leaf { byte, .. } => {
            assert(t.contains(byte));
        },
        Tree::Branch { left, right, .. } => {
            assert forall|b: u8| left.contains(b) implies 0 <= w(b) by {
                assert(t.contains(b));
            }
            assert forall|b: u8| right.contains(b) implies 0 <= w(b) by {
                assert(t.contains(b));
            }
            lemma_cost_nonneg(*left, w);
            lemma_cost_nonneg(*right, w);
        },
    }
}

proof fn lemma_sum_cost_push(heap: Seq<Tree>, tree: Tree, w: spec_fn(u8) -> int)
    ensures
        sum_cost(heap.push(tree), w) == sum_cost(heap, w) + cost(tree, w),
{
    assert(heap.push(tree).drop_last() =~= heap);
}

proof fn lemma_sum_cost_remove(heap: Seq<Tree>, i: int, w: spec_fn(u8) -> int)
    requires
        0 <= i < heap.len(),
    ensures
        sum_cost(heap.remove(i), w) == sum_cost(heap, w) - cost(heap[i], w),
    decreases heap.len(),
{
    if i == heap.len() - 1 {
        assert(heap.remove(i) =~= heap.drop_last());
    } else {
        lemma_sum_cost_remove(heap.drop_last(), i, w);
        assert(heap.remove(i).drop_last() =~= heap.drop_last().remove(i));
        assert(heap.remove(i).last() == heap.last());
    }
}

/// The tree that merging gives costs what its parts cost and what the
/// merges add.
pub proof fn lemma_built_cost(heap: Seq<Tree>, w: spec_fn(u8) -> int)
    requires
        heap.len() >= 1,
        total_weight(heap) <= usize::MAX,
        forall|i: int| 0 <= i < heap.len() ==> (#[trigger] heap[i]).weight() == load(heap[i], w),
    ensures
        cost(merge_all(heap), w) == sum_cost(heap, w) + added_cost(heap),
    decreases heap.len(),
{
    if heap.len() == 1 {
        assert(heap.drop_last().len() == 0);
        assert(sum_cost(heap.drop_last(), w) == 0);
        assert(heap.last() == heap[0]);
    } else {
        lemma_merge_step_shape(heap);
        let next = merge_step(heap);
        let i = min_index(heap);
        let rest = heap.remove(i);
        let j = min_index(rest);
        let pj = second_place(heap);
        assert(rest[j] == heap[pj]);
        lemma_sum_cost_remove(heap, i, w);
        lemma_sum_cost_remove(rest, j, w);
        lemma_sum_cost_push(rest.remove(j), next[heap.len() - 2], w);
        assert(next == rest.remove(j).push(next[heap.len() - 2]));
        assert(heap[i].weight() == load(heap[i], w));
        assert(heap[pj].weight() == load(heap[pj], w));
        assert forall|r: int| 0 <= r < next.len() implies (#[trigger] next[r]).weight() == load(
            next[r],
            w,
        ) by {
            if r < heap.len() - 2 {
                assert(next[r] == heap[kept_place(heap, r)]);
                assert(heap[kept_place(heap, r)].weight() == load(heap[kept_place(heap, r)], w));
            }
        }
        lemma_built_cost(next, w);
    }
}

/// Whatever tree joins the trees of the queue, it costs at least what
/// merging adds.
pub proof fn lemma_core(heap: Seq<Tree>, t: Tree)
    requires
        heap.len() >= 1,
        heap_wf(heap),
        total_weight(heap) <= usize::MAX,
        covers(t, heap),
    ensures
        added_cost(heap) <= cost(t, forest_weights(heap)),
    decreases heap.len(),
{
    let w = forest_weights(heap);
    if heap.len() == 1 {
        lemma_cost_nonneg(t, w);
    } else {
        lemma_merge_step_shape(heap);
        lemma_merge_step_wf(heap);
        let next = merge_step(heap);
        let w2 = forest_weights(next);
        let i = min_index(heap);
        let pj = second_place(heap);
        let p = rep(heap[i]);
        let q = rep(heap[pj]);
        let last = heap.len() - 2;
        lemma_weight_at(heap, i);
        lemma_weight_at(heap, pj);
        if p == q {
            lemma_reps_differ(heap, i, pj);
        }
        assert(t.contains(p) && t.contains(q));
        assert(t is Branch);
        assert forall|b: u8| t.contains(b) implies w(p) <= w(b) by {
            assert(in_reps(heap, b));
            let k = place_of(heap, b);
            lemma_weight_at(heap, k);
        }
        assert forall|b: u8| t.contains(b) && b != p implies w(q) <= w(b) by {
            assert(in_reps(heap, b));
            let k = place_of(heap, b);
            lemma_weight_at(heap, k);
        }
        let r = lemma_exchange(t, w, p, q);
        let t3 = collapse(r);
        assert(rep(next[last]) == p);
        lemma_weight_at(next, last);
        assert forall|b: u8| r.contains(b) && b != p && b != q implies w(b) == w2(b) by {
            assert(t.contains(b));
            assert(in_reps(heap, b));
            let k = place_of(heap, b);
            lemma_weight_at(heap, k);
            let n = kept_index(heap, k);
            assert(next[n] == heap[k]);
            lemma_weight_at(next, n);
        }
        lemma_collapse(r, w, w2);
        assert forall|b: u8| t3.contains(b) <==> in_reps(next, b) by {
            if t3.contains(b) {
                assert(t.contains(b) && b != q);
                if b != p {
                    assert(in_reps(heap, b));
                    let k = place_of(heap, b);
                    lemma_weight_at(heap, k);
                    let n = kept_index(heap, k);
                    assert(next[n] == heap[k]);
                    lemma_weight_at(next, n);
                }
            }
            if in_reps(next, b) {
                let n = place_of(next, b);
                if n == last {
                } else {
                    let k = kept_place(heap, n);
                    assert(next[n] == heap[k]);
                    lemma_weight_at(heap, k);
                    assert(t.contains(b));
                    if b == q {
                        lemma_reps_differ(heap, k, pj);
                    }
                }
            }
        }
        lemma_core(next, t3);
    }
}

proof fn lemma_leaves_loaded(s: Seq<u8>, k: int)
    requires
        0 <= k <= 256,
        s.len() <= usize::MAX,
    ensures
        sum_cost(leaves_upto(s, k), counts(s)) == 0,
        forall|i: int|
            0 <= i < leaves_upto(s, k).len() ==> (#[trigger] leaves_upto(s, k)[i]) is Leaf
                && leaves_upto(s, k)[i].weight() == load(leaves_upto(s, k)[i], counts(s)),
    decreases k,
{
    if k > 0 {
        lemma_leaves_loaded(s, k - 1);
        let b = (k - 1) as u8;
        lemma_count_bound(s, b);
        if count(s, b) > 0 {
            lemma_sum_cost_push(
                leaves_upto(s, k - 1),
                Tree::Leaf { value: count(s, b) as usize, byte: b },
                counts(s),
            );
        }
    }
}

/// What the symbols below `k` that `t` holds weigh together.
pub open spec fn load_below(t: Tree, s: Seq<u8>, k: int) -> int
    decreases k,
{
    if k <= 0 {
        0
    } else {
        load_below(t, s, k - 1) + if t.contains((k - 1) as u8) {
            count(s, (k - 1) as u8) as int
        } else {
            0
        }
    }
}

/// What the symbols below `k` that `t` holds cost together.
pub open spec fn path_cost_below(t: Tree, s: Seq<u8>, k: int) -> int
    decreases k,
{
    if k <= 0 {
        0
    } else {
        path_cost_below(t, s, k - 1) + if t.contains((k - 1) as u8) {
            count(s, (k - 1) as u8) * t.path_to((k - 1) as u8).len()
        } else {
            0
        }
    }
}

proof fn lemma_below_leaf(t: Tree, s: Seq<u8>, k: int)
    requires
        t is Leaf,
        0 <= k <= 256,
    ensures
        load_below(t, s, k) == if rep(t) < k {
            count(s, rep(t)) as int
        } else {
            0
        },
        path_cost_below(t, s, k) == 0,
    decreases k,
{
    if k > 0 {
        lemma_below_leaf(t, s, k - 1);
        let c = count(s, (k - 1) as u8);
        assert(c * 0 == 0) by (nonlinear_arith);
    }
}

proof fn lemma_below_branch(t: Tree, s: Seq<u8>, k: int)
    requires
        t is Branch,
        distinct(t),
        0 <= k <= 256,
    ensures
        load_below(t, s, k) == load_below(*t->left, s, k) + load_below(*t->right, s, k),
        path_cost_below(t, s, k) == path_cost_below(*t->left, s, k) + path_cost_below(
            *t->right,
            s,
            k,
        ) + load_below(*t->left, s, k) + load_below(*t->right, s, k),
    decreases k,
{
    if k > 0 {
        lemma_below_branch(t, s, k - 1);
        let b = (k - 1) as u8;
        let c = count(s, b);
        let left = *t->left;
        let right = *t->right;
        assert(!(left.contains(b) && right.contains(b)));
        if right.contains(b) {
            let l = right.path_to(b).len();
            assert(t.path_to(b) =~= seq![true] + right.path_to(b));
            assert(c * (1 + l) == c + c * l) by (nonlinear_arith);
        } else if left.contains(b) {
            let l = left.path_to(b).len();
            assert(t.path_to(b) =~= seq![false] + left.path_to(b));
            assert(c * (1 + l) == c + c * l) by (nonlinear_arith);
        }
    }
}

proof fn lemma_below_tree(t: Tree, s: Seq<u8>)
    requires
        distinct(t),
    ensures
        load_below(t, s, 256) == load(t, counts(s)),
        path_cost_below(t, s, 256) == cost(t, counts(s)),
    decreases t,
{
    match t {
        Tree::Leaf { .. } => {
            lemma_below_leaf(t, s, 256);
        },
        Tree::Branch { left, right, .. } => {
            lemma_below_branch(t, s, 256);
            lemma_below_tree(*left, s);
            lemma_below_tree(*right, s);
        },
    }
}

/// In a tree of more than one leaf that holds every symbol of the input,
/// the codes are the paths.
pub proof fn lemma_cost_below_paths(t: Tree, s: Seq<u8>, k: int)
    requires
        t is Branch,
        forall|b: u8| count(s, b) > 0 ==> t.contains(b),
        0 <= k <= 256,
    ensures
        cost_below(t, s, k) == path_cost_below(t, s, k),
    decreases k,
{
    if k > 0 {
        lemma_cost_below_paths(t, s, k - 1);
        let b = (k - 1) as u8;
        let l = t.code(b).len();
        if !t.contains(b) {
            assert(count(s, b) == 0);
            assert(0 * l == 0) by (nonlinear_arith);
        }
    }
}

/// Under a tree of one leaf, an input of that one symbol costs one bit for
/// each occurrence.
pub proof fn lemma_cost_below_leaf(t: Tree, s: Seq<u8>, k: int)
    requires
        t is Leaf,
        forall|i: int| 0 <= i < s.len() ==> s[i] == rep(t),
        0 <= k <= 256,
    ensures
        cost_below(t, s, k) == if rep(t) < k {
            s.len() as int
        } else {
            0
        },
    decreases k,
{
    if k > 0 {
        lemma_cost_below_leaf(t, s, k - 1);
        let b = (k - 1) as u8;
        lemma_count_single(s, rep(t), b);
        let c = count(s, b);
        assert(c * 1 == c) by (nonlinear_arith);
    }
}

/// The payload of a tree of more than one leaf that holds each symbol of
/// the input once is as long as the tree costs under the input's counts.
pub proof fn lemma_payload_cost(t: Tree, s: Seq<u8>)
    requires
        t is Branch,
        distinct(t),
        forall|b: u8| count(s, b) > 0 ==> t.contains(b),
    ensures
        payload(t, s).len() == cost(t, counts(s)),
{
    lemma_payload_len(t, s);
    lemma_cost_below_paths(t, s, 256);
    lemma_below_tree(t, s);
}

/// Among all trees that hold exactly the symbols of the input, each once,
/// none gives a shorter payload than the input's code tree: the sum, over
/// the symbols, of the length of the code times the number of occurrences
/// is as small as it can be.
pub proof fn lemma_optimal(input: Seq<u8>, other: Tree)
    requires
        0 < input.len() <= usize::MAX,
        distinct(other),
        forall|b: u8| other.contains(b) <==> count(input, b) > 0,
    ensures
        payload(huffman_tree(input), input).len() <= payload(other, input).len(),
{
    let built = huffman_tree(input);
    let heap = leaves_upto(input, 256);
    let w = counts(input);
    lemma_huffman_tree_well_formed(input);
    lemma_wf_distinct(built);
    match other {
        Tree::Leaf { byte, .. } => {
            if built is Branch {
                lemma_deep(built);
                assert(other.contains(deep_left(built)));
                assert(other.contains(deep_right(built)));
            }
            lemma_rep(built);
            assert(other.contains(rep(built)));
            assert forall|i: int| 0 <= i < input.len() implies input[i] == byte by {
                lemma_count_positive(input, i);
                assert(other.contains(input[i]));
            }
            lemma_payload_len(built, input);
            lemma_payload_len(other, input);
            lemma_cost_below_leaf(built, input, 256);
            lemma_cost_below_leaf(other, input, 256);
        },
        Tree::Branch { .. } => {
            lemma_deep(other);
            assert(built.contains(deep_left(other)));
            assert(built.contains(deep_right(other)));
            assert(built is Branch);
            lemma_payload_cost(built, input);
            lemma_payload_cost(other, input);
            lemma_leaves_loaded(input, 256);
            lemma_leaves_wf(input, 256);
            lemma_leaves_weight(input, 256);
            lemma_count_total(input);
            lemma_count_positive(input, 0);
            lemma_leaves_contain(input, 256, input[0]);
            lemma_built_cost(heap, w);
            assert forall|b: u8| other.contains(b) <==> in_reps(heap, b) by {
                if count(input, b) > 0 {
                    lemma_leaves_contain(input, 256, b);
                    let i = choose|i: int| 0 <= i < heap.len() && (#[trigger] heap[i]).contains(b);
                    assert(heap[i] is Leaf);
                    assert(rep(heap[i]) == b);
                }
                if in_reps(heap, b) {
                    let i = place_of(heap, b);
                    lemma_rep(heap[i]);
                    assert(heap[i].contains(b));
                }
            }
            lemma_core(heap, other);
            let fw = forest_weights(heap);
            assert forall|b: u8| other.contains(b) implies fw(b) == w(b) by {
                assert(in_reps(heap, b));
                let i = place_of(heap, b);
                lemma_weight_at(heap, i);
                assert(heap[i] is Leaf);
            }
            lemma_bump(other, fw, w, 0);
            let d = w(0) - fw(0);
            assert(other.contains(0) ==> d == 0);
            assert(0 * depth(other, 0) == 0) by (nonlinear_arith);
        },
    }
}

} // verus!
