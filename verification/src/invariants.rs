//! What holds of every tree that is built from an input: its weights add
//! up, and each symbol of the input has exactly one leaf.

use crate::heap::{
    heap_contains, lemma_min_index, lemma_total_push, lemma_total_remove, min_index, total_weight,
};
use crate::tree::Tree;
use crate::{
    count, huffman_tree, lemma_count_positive, lemma_count_total,
    lemma_leaves_contain, lemma_leaves_weight, lemma_merge_all_contains, leaves_upto, merge_all,
    merge_step,
};
use vstd::prelude::*;

verus! {

/// Every tree of the queue is well formed, and no symbol stands in two of
/// them.
pub open spec fn heap_wf(heap: Seq<Tree>) -> bool {
    &&& forall|i: int| 0 <= i < heap.len() ==> (#[trigger] heap[i]).well_formed()
    &&& forall|i: int, j: int, b: u8|
        0 <= i < heap.len() && 0 <= j < heap.len() && i != j ==> !(#[trigger] heap[i].contains(b) && #[trigger] heap[j].contains(b))
}

/// The place in `heap` of what stands at `r` after the trees at `i`, and
/// then at `j` of the rest, were taken out.
pub open spec fn place_before(i: int, j: int, r: int) -> int {
    let q = if r < j {
        r
    } else {
        r + 1
    };
    if q < i {
        q
    } else {
        q + 1
    }
}

/// The place in `heap` of the tree that is taken out second.
pub open spec fn second_place(heap: Seq<Tree>) -> int {
    let i = min_index(heap);
    let j = min_index(heap.remove(i));
    if j < i {
        j
    } else {
        j + 1
    }
}

/// The place in `heap` of the tree that stands at `r` after one merge.
pub open spec fn kept_place(heap: Seq<Tree>, r: int) -> int {
    place_before(min_index(heap), min_index(heap.remove(min_index(heap))), r)
}

/// The place after one merge of the tree that stands at `k` in `heap`.
pub open spec fn kept_index(heap: Seq<Tree>, k: int) -> int {
    let i = min_index(heap);
    let j = min_index(heap.remove(i));
    let q = if k < i {
        k
    } else {
        k - 1
    };
    if q < j {
        q
    } else {
        q - 1
    }
}

/// What one merge does: the two lightest trees leave and come back as one
/// at the end; the others keep their order.
pub proof fn lemma_merge_step_shape(heap: Seq<Tree>)
    requires
        heap.len() > 1,
        total_weight(heap) <= usize::MAX,
    ensures
        0 <= min_index(heap) < heap.len(),
        0 <= second_place(heap) < heap.len(),
        min_index(heap) != second_place(heap),
        forall|k: int|
            0 <= k < heap.len() ==> heap[min_index(heap)].weight() <= (#[trigger] heap[k]).weight(),
        forall|k: int|
            0 <= k < heap.len() && k != min_index(heap) ==> heap[second_place(heap)].weight() <= (
            #[trigger] heap[k]).weight(),
        heap[min_index(heap)].weight() + heap[second_place(heap)].weight() <= usize::MAX,
        merge_step(heap).len() == heap.len() - 1,
        merge_step(heap)[heap.len() - 2] == (Tree::Branch {
            value: (heap[min_index(heap)].weight() + heap[second_place(heap)].weight()) as usize,
            left: Box::new(heap[min_index(heap)]),
            right: Box::new(heap[second_place(heap)]),
        }),
        forall|r: int|
            0 <= r < heap.len() - 2 ==> #[trigger] merge_step(heap)[r] == heap[kept_place(heap, r)]
                && 0 <= kept_place(heap, r) < heap.len() && kept_place(heap, r) != min_index(heap)
                && kept_place(heap, r) != second_place(heap),
        forall|k: int|
            0 <= k < heap.len() && k != min_index(heap) && k != second_place(heap) ==> 0
                <= #[trigger] kept_index(heap, k) < heap.len() - 2 && kept_place(
                heap,
                kept_index(heap, k),
            ) == k,
        total_weight(merge_step(heap)) == total_weight(heap),
{
    let i = min_index(heap);
    lemma_min_index(heap);
    let rest = heap.remove(i);
    let j = min_index(rest);
    lemma_min_index(rest);
    let pj = second_place(heap);
    assert(rest[j] == heap[pj]);
    let kept = rest.remove(j);
    let joined = Tree::Branch {
        value: (heap[i].weight() + rest[j].weight()) as usize,
        left: Box::new(heap[i]),
        right: Box::new(rest[j]),
    };
    lemma_total_remove(heap, i);
    lemma_total_remove(rest, j);
    lemma_total_push(kept, joined);
    assert forall|k: int| 0 <= k < heap.len() && k != i implies heap[pj].weight() <= (
    #[trigger] heap[k]).weight() by {
        let q = if k < i {
            k
        } else {
            k - 1
        };
        assert(rest[q] == heap[k]);
    }
}

pub proof fn lemma_leaves_wf(s: Seq<u8>, k: int)
    requires
        0 <= k <= 256,
    ensures
        heap_wf(leaves_upto(s, k)),
        forall|i: int, b: u8|
            0 <= i < leaves_upto(s, k).len() && #[trigger] leaves_upto(s, k)[i].contains(b) ==> b
                < k && count(s, b) > 0,
    decreases k,
{
    if k > 0 {
        lemma_leaves_wf(s, k - 1);
        let prev = leaves_upto(s, k - 1);
        let heap = leaves_upto(s, k);
        assert forall|i: int, b: u8| 0 <= i < heap.len() && #[trigger] heap[i].contains(b) implies b < k && count(s, b) > 0 by {
            if i < prev.len() {
                assert(prev[i].contains(b));
            }
        }
        assert forall|i: int, j: int, b: u8|
            0 <= i < heap.len() && 0 <= j < heap.len() && i != j implies !(#[trigger] heap[i].contains(b) && #[trigger] heap[j].contains(b)) by {
            if heap[i].contains(b) && heap[j].contains(b) {
                if i < prev.len() && j < prev.len() {
                    assert(prev[i].contains(b) && prev[j].contains(b));
                } else if i < prev.len() {
                    assert(prev[i].contains(b));
                } else {
                    assert(prev[j].contains(b));
                }
            }
        }
    }
}

/// One merge keeps the queue in order: its trees stay well formed and
/// apart, its weight stays, and it gains no symbol.
pub proof fn lemma_merge_step_wf(heap: Seq<Tree>)
    requires
        heap.len() > 1,
        heap_wf(heap),
        total_weight(heap) <= usize::MAX,
    ensures
        heap_wf(merge_step(heap)),
        merge_step(heap).len() == heap.len() - 1,
        total_weight(merge_step(heap)) == total_weight(heap),
        forall|b: u8| heap_contains(merge_step(heap), b) ==> heap_contains(heap, b),
{
    let i = min_index(heap);
    lemma_min_index(heap);
    let rest = heap.remove(i);
    let j = min_index(rest);
    lemma_min_index(rest);
    let pj = if j < i {
        j
    } else {
        j + 1
    };
    assert(rest[j] == heap[pj]);
    let kept = rest.remove(j);
    let joined = Tree::Branch {
        value: (heap[i].weight() + rest[j].weight()) as usize,
        left: Box::new(heap[i]),
        right: Box::new(rest[j]),
    };
    let next = merge_step(heap);
    assert(next == kept.push(joined));
    lemma_total_remove(heap, i);
    lemma_total_remove(rest, j);
    lemma_total_push(kept, joined);
    assert(joined.well_formed()) by {
        assert(heap[i].well_formed());
        assert(heap[pj].well_formed());
        assert forall|b: u8| !(heap[i].contains(b) && heap[pj].contains(b)) by {}
    }
    assert forall|r: int| 0 <= r < kept.len() implies #[trigger] next[r] == heap[place_before(
        i,
        j,
        r,
    )] && place_before(i, j, r) != i && place_before(i, j, r) != pj && 0 <= place_before(i, j, r)
        < heap.len() by {}
    assert forall|r: int| 0 <= r < next.len() implies (#[trigger] next[r]).well_formed() by {
        if r < kept.len() {
            assert(heap[place_before(i, j, r)].well_formed());
        }
    }
    assert forall|r: int, t: int, b: u8|
        0 <= r < next.len() && 0 <= t < next.len() && r != t implies !(#[trigger] next[r].contains(b) && #[trigger] next[t].contains(b)) by {
        if next[r].contains(b) && next[t].contains(b) {
            let pr = if r < kept.len() {
                place_before(i, j, r)
            } else if heap[i].contains(b) {
                i
            } else {
                pj
            };
            let pt = if t < kept.len() {
                place_before(i, j, t)
            } else if heap[i].contains(b) {
                i
            } else {
                pj
            };
            assert(heap[pr].contains(b));
            assert(heap[pt].contains(b));
            assert(pr != pt);
        }
    }
    assert forall|b: u8| heap_contains(next, b) implies heap_contains(heap, b) by {
        let r = choose|r: int| 0 <= r < next.len() && (#[trigger] next[r]).contains(b);
        if r < kept.len() {
            assert(heap[place_before(i, j, r)].contains(b));
        } else if heap[i].contains(b) {
        } else {
            assert(heap[pj].contains(b));
        }
    }
}

/// Merging a queue that is in order gives a well-formed tree of the
/// queue's weight, with no symbol that the queue did not have.
pub proof fn lemma_merge_all_wf(heap: Seq<Tree>)
    requires
        heap.len() >= 1,
        heap_wf(heap),
        total_weight(heap) <= usize::MAX,
    ensures
        merge_all(heap).well_formed(),
        merge_all(heap).weight() == total_weight(heap),
        forall|b: u8| merge_all(heap).contains(b) ==> heap_contains(heap, b),
    decreases heap.len(),
{
    if heap.len() > 1 {
        lemma_merge_step_wf(heap);
        lemma_merge_all_wf(merge_step(heap));
    } else {
        assert(heap.drop_last().len() == 0);
        assert(total_weight(heap.drop_last()) == 0);
        assert(heap.last() == heap[0]);
    }
}

/// The code tree of an input is well formed, weighs as much as the input
/// is long, and has a leaf for a symbol exactly if the symbol occurs in
/// the input.
pub proof fn lemma_huffman_tree_well_formed(input: Seq<u8>)
    requires
        0 < input.len() <= usize::MAX,
    ensures
        huffman_tree(input).well_formed(),
        huffman_tree(input).weight() == input.len(),
        forall|b: u8| huffman_tree(input).contains(b) <==> count(input, b) > 0,
{
    let heap = leaves_upto(input, 256);
    lemma_leaves_wf(input, 256);
    lemma_leaves_weight(input, 256);
    lemma_count_total(input);
    lemma_count_positive(input, 0);
    lemma_leaves_contain(input, 256, input[0]);
    lemma_merge_all_wf(heap);
    assert forall|b: u8| huffman_tree(input).contains(b) <==> count(input, b) > 0 by {
        if count(input, b) > 0 {
            lemma_leaves_contain(input, 256, b);
            lemma_merge_all_contains(heap, b);
        }
        if huffman_tree(input).contains(b) {
            assert(merge_all(heap).contains(b));
            assert(heap_contains(heap, b));
            let i = choose|i: int| 0 <= i < heap.len() && (#[trigger] heap[i]).contains(b);
            assert(heap[i].contains(b));
        }
    }
}

/// In an input of the one symbol `b`, only `b` is counted.
pub proof fn lemma_count_single(s: Seq<u8>, b: u8, x: u8)
    requires
        forall|i: int| 0 <= i < s.len() ==> s[i] == b,
    ensures
        count(s, x) == if x == b {
            s.len()
        } else {
            0
        },
    decreases s.len(),
{
    if s.len() > 0 {
        lemma_count_single(s.drop_last(), b, x);
    }
}

proof fn lemma_leaves_single(s: Seq<u8>, b: u8, k: int)
    requires
        0 < s.len() <= usize::MAX,
        forall|i: int| 0 <= i < s.len() ==> s[i] == b,
        0 <= k <= 256,
    ensures
        leaves_upto(s, k) == if k <= b {
            Seq::<Tree>::empty()
        } else {
            seq![Tree::Leaf { value: s.len() as usize, byte: b }]
        },
    decreases k,
{
    if k > 0 {
        lemma_leaves_single(s, b, k - 1);
        lemma_count_single(s, b, (k - 1) as u8);
        if k - 1 == b {
            assert(leaves_upto(s, k) =~= seq![Tree::Leaf { value: s.len() as usize, byte: b }]);
        }
    }
}

/// An input of one symbol, however often, has a tree of one leaf.
pub proof fn lemma_single_symbol_tree(input: Seq<u8>, b: u8)
    requires
        0 < input.len() <= usize::MAX,
        forall|i: int| 0 <= i < input.len() ==> input[i] == b,
    ensures
        huffman_tree(input) == (Tree::Leaf { value: input.len() as usize, byte: b }),
{
    lemma_leaves_single(input, b, 256);
}

} // verus!
