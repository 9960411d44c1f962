//! Huffman compression of byte strings: counting symbols, building the code
//! tree, deriving the code table, and the bit-level file layout.

pub mod bits;
pub mod bitwriter;
pub mod codec;
pub mod error;
pub mod exchange;
pub mod format;
pub mod heap;
pub mod invariants;
pub mod optimal;
pub mod order;
pub mod prefix;
pub mod reader;
pub mod text;
pub mod tree;

use crate::codec::is_code_table;
use crate::heap::{
    get_value, heap_contains, lemma_min_index, lemma_total_push, lemma_total_remove, min_index,
    total_weight, TreeHeap,
};
use crate::invariants::lemma_huffman_tree_well_formed;
use crate::tree::Tree;
use std::collections::HashMap;
use vstd::prelude::*;

verus! {

/// One step down a tree.
#[derive(Debug, Copy, Clone)]
pub enum Direction {
    Left,
    Right,
}

impl Direction {
    /// The bit that stands for the step: 0 for left, 1 for right.
    pub open spec fn bit(self) -> bool {
        match self {
            Direction::Left => false,
            Direction::Right => true,
        }
    }

    /// The bit that stands for the step: `false` for left, `true` for right.
    pub fn to_bool(self) -> (bit: bool)
        ensures
            bit == self.bit(),
    {
        match self {
            Direction::Left => false,
            Direction::Right => true,
        }
    }
}

/// The bits of a path.
pub open spec fn path_bits(path: Seq<Direction>) -> Seq<bool> {
    Seq::new(path.len(), |i: int| path[i].bit())
}

/// How often `b` occurs in `s`.
pub open spec fn count(s: Seq<u8>, b: u8) -> nat
    decreases s.len(),
{
    if s.len() == 0 {
        0
    } else {
        count(s.drop_last(), b) + if s.last() == b {
            1nat
        } else {
            0nat
        }
    }
}

/// How many symbols of `s` are below `k`.
pub open spec fn count_below(s: Seq<u8>, k: int) -> nat
    decreases k,
{
    if k <= 0 {
        0
    } else {
        count_below(s, k - 1) + count(s, (k - 1) as u8)
    }
}

/// One leaf for each symbol below `k` that occurs in `s`, weighted by how
/// often it occurs, in the order of the symbols.
pub open spec fn leaves_upto(s: Seq<u8>, k: int) -> Seq<Tree>
    decreases k,
{
    if k <= 0 {
        Seq::empty()
    } else {
        let b = (k - 1) as u8;
        if count(s, b) > 0 {
            leaves_upto(s, k - 1).push(Tree::Leaf { value: count(s, b) as usize, byte: b })
        } else {
            leaves_upto(s, k - 1)
        }
    }
}

/// The queue after its two lightest trees were taken out, one after the
/// other, and put back as one: the first on the left, the second on the
/// right.
pub open spec fn merge_step(heap: Seq<Tree>) -> Seq<Tree> {
    let i = min_index(heap);
    let rest = heap.remove(i);
    let j = min_index(rest);
    rest.remove(j).push(
        Tree::Branch {
            value: (heap[i].weight() + rest[j].weight()) as usize,
            left: Box::new(heap[i]),
            right: Box::new(rest[j]),
        },
    )
}

/// The tree that is left when the queue is merged until one tree remains.
pub open spec fn merge_all(heap: Seq<Tree>) -> Tree
    decreases heap.len(),
{
    if heap.len() <= 1 {
        heap[0]
    } else {
        let next = merge_step(heap);
        if next.len() < heap.len() {
            merge_all(next)
        } else {
            heap[0]
        }
    }
}

/// The code tree of `input`.
pub open spec fn huffman_tree(input: Seq<u8>) -> Tree {
    merge_all(leaves_upto(input, 256))
}

/// No symbol occurs more often than the input is long.
pub proof fn lemma_count_bound(s: Seq<u8>, b: u8)
    ensures
        count(s, b) <= s.len(),
    decreases s.len(),
{
    if s.len() > 0 {
        lemma_count_bound(s.drop_last(), b);
    }
}

/// A symbol of the input occurs in it at least once.
pub proof fn lemma_count_positive(s: Seq<u8>, i: int)
    requires
        0 <= i < s.len(),
    ensures
        count(s, s[i]) > 0,
    decreases s.len(),
{
    if i < s.len() - 1 {
        lemma_count_positive(s.drop_last(), i);
    }
}

proof fn lemma_count_below_step(s: Seq<u8>, k: int)
    requires
        s.len() > 0,
        0 <= k <= 256,
    ensures
        count_below(s, k) == count_below(s.drop_last(), k) + if s.last() < k {
            1nat
        } else {
            0nat
        },
    decreases k,
{
    if k > 0 {
        lemma_count_below_step(s, k - 1);
    }
}

proof fn lemma_count_below_empty(s: Seq<u8>, k: int)
    requires
        s.len() == 0,
    ensures
        count_below(s, k) == 0,
    decreases k,
{
    if k > 0 {
        lemma_count_below_empty(s, k - 1);
    }
}

/// The counts of all symbols add up to the length of the input.
pub proof fn lemma_count_total(s: Seq<u8>)
    ensures
        count_below(s, 256) == s.len(),
    decreases s.len(),
{
    if s.len() == 0 {
        lemma_count_below_empty(s, 256);
    } else {
        lemma_count_total(s.drop_last());
        lemma_count_below_step(s, 256);
    }
}

pub proof fn lemma_leaves_weight(s: Seq<u8>, k: int)
    requires
        0 <= k <= 256,
        s.len() <= usize::MAX,
    ensures
        total_weight(leaves_upto(s, k)) == count_below(s, k),
    decreases k,
{
    if k > 0 {
        let b = (k - 1) as u8;
        lemma_leaves_weight(s, k - 1);
        lemma_count_bound(s, b);
        if count(s, b) > 0 {
            lemma_total_push(
                leaves_upto(s, k - 1),
                Tree::Leaf { value: count(s, b) as usize, byte: b },
            );
        }
    }
}

pub proof fn lemma_leaves_contain(s: Seq<u8>, k: int, b: u8)
    requires
        0 <= b < k <= 256,
        count(s, b) > 0,
    ensures
        heap_contains(leaves_upto(s, k), b),
    decreases k,
{
    let heap = leaves_upto(s, k);
    if b == k - 1 {
        assert(heap[heap.len() - 1].contains(b));
    } else {
        lemma_leaves_contain(s, k - 1, b);
        let prev = leaves_upto(s, k - 1);
        let i = choose|i: int| 0 <= i < prev.len() && (#[trigger] prev[i]).contains(b);
        assert(heap[i].contains(b));
    }
}

/// One merge makes the queue shorter by one tree and keeps its symbols.
pub proof fn lemma_merge_step(heap: Seq<Tree>)
    requires
        heap.len() > 1,
    ensures
        merge_step(heap).len() == heap.len() - 1,
        forall|b: u8| heap_contains(heap, b) ==> heap_contains(merge_step(heap), b),
{
    let i = min_index(heap);
    lemma_min_index(heap);
    let rest = heap.remove(i);
    let j = min_index(rest);
    lemma_min_index(rest);
    let next = merge_step(heap);
    assert forall|b: u8| heap_contains(heap, b) implies heap_contains(next, b) by {
        let p = choose|p: int| 0 <= p < heap.len() && (#[trigger] heap[p]).contains(b);
        if p == i {
            assert(next[next.len() - 1].contains(b));
        } else {
            let q = if p < i {
                p
            } else {
                p - 1
            };
            assert(rest[q] == heap[p]);
            if q == j {
                assert(next[next.len() - 1].contains(b));
            } else {
                let r = if q < j {
                    q
                } else {
                    q - 1
                };
                assert(next[r] == rest[q]);
                assert(next[r].contains(b));
            }
        }
    }
}

/// Merging loses no symbol.
pub proof fn lemma_merge_all_contains(heap: Seq<Tree>, b: u8)
    requires
        heap_contains(heap, b),
    ensures
        merge_all(heap).contains(b),
    decreases heap.len(),
{
    if heap.len() > 1 {
        lemma_merge_step(heap);
        lemma_merge_all_contains(merge_step(heap), b);
    }
}

/// Every symbol of the input has a leaf in the input's code tree.
pub proof fn lemma_huffman_tree_contains(input: Seq<u8>, i: int)
    requires
        0 <= i < input.len(),
    ensures
        huffman_tree(input).contains(input[i]),
{
    lemma_count_positive(input, i);
    lemma_leaves_contain(input, 256, input[i]);
    lemma_merge_all_contains(leaves_upto(input, 256), input[i]);
}

/// Counts how often each symbol occurs. A symbol that does not occur has
/// no entry.
pub fn frequencies(input: &[u8]) -> (f: HashMap<u8, usize>)
    ensures
        forall|b: u8| f@.contains_key(b) <==> count(input@, b) > 0,
        forall|b: u8| f@.contains_key(b) ==> f@[b] == count(input@, b),
{
    broadcast use vstd::std_specs::hash::group_hash_axioms;

    let mut f: HashMap<u8, usize> = HashMap::new();
    let mut i: usize = 0;
    proof {
        assert(input@.take(0) =~= Seq::<u8>::empty());
    }
    while i < input.len()
        invariant
            i <= input@.len(),
            forall|b: u8| f@.contains_key(b) <==> count(input@.take(i as int), b) > 0,
            forall|b: u8| f@.contains_key(b) ==> f@[b] == count(input@.take(i as int), b),
        decreases input@.len() - i,
    {
        let byte = input[i];
        let seen: usize = match f.get(&byte) {
            Some(c) => *c,
            None => 0,
        };
        proof {
            lemma_count_bound(input@.take(i as int), byte);
            assert(input@.take(i + 1).drop_last() =~= input@.take(i as int));
            assert(input@.take(i + 1).last() == byte);
        }
        f.insert(byte, seen + 1);
        i = i + 1;
    }
    proof {
        assert(input@.take(input@.len() as int) =~= input@);
    }
    f
}

/// The queue that tree building starts from: one leaf for each symbol
/// that occurs, put in by rising symbol.
pub fn bin_heap_min(input: &[u8]) -> (heap: TreeHeap)
    ensures
        heap@ == leaves_upto(input@, 256),
{
    broadcast use vstd::std_specs::hash::group_hash_axioms;

    let f = frequencies(input);
    let mut h = TreeHeap::new();
    let mut k: u16 = 0;
    while k < 256
        invariant
            k <= 256,
            h@ == leaves_upto(input@, k as int),
            forall|b: u8| f@.contains_key(b) <==> count(input@, b) > 0,
            forall|b: u8| f@.contains_key(b) ==> f@[b] == count(input@, b),
        decreases 256 - k,
    {
        let byte: u8 = k as u8;
        match f.get(&byte) {
            Some(c) => {
                h.push(Tree::Leaf { value: *c, byte });
            },
            None => {},
        }
        k = k + 1;
    }
    h
}

/// Builds the code tree: takes the two lightest trees out of the queue and
/// puts them back as one, first on the left, until one tree is left.
pub fn to_tree(input: &[u8]) -> (tree: Tree)
    requires
        input@.len() > 0,
    ensures
        tree == huffman_tree(input@),
        tree.well_formed(),
        tree.weight() == input@.len(),
        forall|b: u8| tree.contains(b) <==> count(input@, b) > 0,
{
    let total: usize = input.len();
    proof {
        lemma_huffman_tree_well_formed(input@);
    }
    let mut heap = bin_heap_min(input);
    proof {
        lemma_leaves_weight(input@, 256);
        lemma_count_total(input@);
        lemma_count_positive(input@, 0);
        lemma_leaves_contain(input@, 256, input@[0]);
    }
    while heap.len() > 1
        invariant
            heap@.len() >= 1,
            total_weight(heap@) == total,
            merge_all(heap@) == huffman_tree(input@),
        decreases heap@.len(),
    {
        let ghost before = heap@;
        proof {
            lemma_min_index(before);
        }
        let first = heap.pop().unwrap();
        let ghost rest = heap@;
        proof {
            lemma_min_index(rest);
        }
        let second = heap.pop().unwrap();
        proof {
            lemma_total_remove(before, min_index(before));
            lemma_total_remove(rest, min_index(rest));
            lemma_total_push(
                heap@,
                Tree::Branch {
                    value: (first.weight() + second.weight()) as usize,
                    left: Box::new(first),
                    right: Box::new(second),
                },
            );
            lemma_merge_step(before);
        }
        let value = get_value(&first) + get_value(&second);
        heap.push(Tree::Branch { value, left: Box::new(first), right: Box::new(second) });
        proof {
            assert(heap@ == merge_step(before));
        }
    }
    heap.pop().unwrap()
}

/// Turns a path into its bits.
pub fn to_bool_path(path: &[Direction]) -> (bits: Vec<bool>)
    ensures
        bits@ == path_bits(path@),
{
    let mut bits: Vec<bool> = Vec::new();
    let mut i: usize = 0;
    while i < path.len()
        invariant
            i <= path@.len(),
            bits@ == path_bits(path@.take(i as int)),
        decreases path@.len() - i,
    {
        bits.push(path[i].to_bool());
        proof {
            assert(bits@ =~= path_bits(path@.take(i + 1)));
        }
        i = i + 1;
    }
    proof {
        assert(path@.take(path@.len() as int) =~= path@);
    }
    bits
}

/// Walks the tree below the node that `path` leads to and enters, for each
/// leaf, the bits of the way to it under its symbol. Where a symbol has
/// two leaves, the later one, further right, stays.
pub fn traverse_inner(tree: &Tree, path: Vec<Direction>, encoding: &mut HashMap<u8, Vec<bool>>)
    ensures
        forall|b: u8|
            #![trigger tree.contains(b)]
            tree.contains(b) ==> final(encoding)@.contains_key(b) && final(encoding)@[b]@
                == path_bits(path@) + tree.path_to(b),
        forall|b: u8|
            #![trigger tree.contains(b)]
            !tree.contains(b) ==> (final(encoding)@.contains_key(b) <==> old(
                encoding
            )@.contains_key(b)) && (old(encoding)@.contains_key(b) ==> final(encoding)@[b] == old(
                encoding
            )@[b]),
    decreases *tree,
{
    broadcast use vstd::std_specs::hash::group_hash_axioms;

    let ghost start = path@;
    match tree {
        Tree::Leaf { byte, .. } => {
            let code = to_bool_path(path.as_slice());
            proof {
                assert(path_bits(path@) + tree.path_to(*byte) =~= path_bits(path@));
            }
            encoding.insert(*byte, code);
        },
        Tree::Branch { left, right, .. } => {
            let mut path_left: Vec<Direction> = Vec::new();
            let mut i: usize = 0;
            while i < path.len()
                invariant
                    i <= path@.len(),
                    path_left@ == path@.take(i as int),
                decreases path@.len() - i,
            {
                path_left.push(path[i]);
                proof {
                    assert(path_left@ =~= path@.take(i + 1));
                }
                i = i + 1;
            }
            proof {
                assert(path@.take(path@.len() as int) =~= path@);
            }
            path_left.push(Direction::Left);
            traverse_inner(left, path_left, encoding);
            let ghost middle = encoding@;
            let mut path_right = path;
            path_right.push(Direction::Right);
            traverse_inner(right, path_right, encoding);
            proof {
                assert forall|b: u8| #![trigger tree.contains(b)] !tree.contains(b) implies (
                encoding@.contains_key(b) <==> old(encoding)@.contains_key(b)) && (old(
                    encoding
                )@.contains_key(b) ==> encoding@[b] == old(encoding)@[b]) by {
                    assert(!left.contains(b) && !right.contains(b));
                }
                assert(path_bits(start.push(Direction::Right)) =~= path_bits(start).push(true));
                assert(path_bits(start.push(Direction::Left)) =~= path_bits(start).push(false));
                assert forall|b: u8| #![trigger tree.contains(b)] tree.contains(b) implies encoding@.contains_key(b)
                    && encoding@[b]@ == path_bits(start) + tree.path_to(b) by {
                    if right.contains(b) {
                        assert(path_bits(start).push(true) + right.path_to(b) =~= path_bits(start)
                            + (seq![true] + right.path_to(b)));
                    } else {
                        assert(left.contains(b));
                        assert(middle.contains_key(b));
                        assert(encoding@.contains_key(b));
                        assert(encoding@[b] == middle[b]);
                        assert(path_bits(start).push(false) + left.path_to(b) =~= path_bits(start)
                            + (seq![false] + left.path_to(b)));
                    }
                }
            }
        },
    }
}

/// Builds the code tree of `input` and the table of its codes. A tree of
/// one leaf gives its symbol the one-bit code 0.
pub fn encode(input: &[u8]) -> (res: (HashMap<u8, Vec<bool>>, Tree))
    requires
        input@.len() > 0,
    ensures
        res.1 == huffman_tree(input@),
        res.1.well_formed(),
        res.1.weight() == input@.len(),
        forall|b: u8| res.1.contains(b) <==> count(input@, b) > 0,
        is_code_table(res.0@, res.1),
{
    broadcast use vstd::std_specs::hash::group_hash_axioms;

    let tree = to_tree(input);
    let mut encoding: HashMap<u8, Vec<bool>> = HashMap::new();
    match &tree {
        Tree::Leaf { byte, .. } => {
            let mut code: Vec<bool> = Vec::new();
            code.push(false);
            proof {
                assert(code@ =~= seq![false]);
            }
            encoding.insert(*byte, code);
        },
        Tree::Branch { .. } => {
            traverse_inner(&tree, Vec::new(), &mut encoding);
            proof {
                assert forall|b: u8| #![trigger tree.contains(b)] tree.contains(b) implies encoding@[b]@
                    == tree.code(b) by {
                    assert(path_bits(Seq::<Direction>::empty()) + tree.path_to(b) =~= tree.path_to(
                        b,
                    ));
                }
            }
        },
    }
    (encoding, tree)
}

} // verus!
