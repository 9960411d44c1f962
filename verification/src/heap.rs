//! A queue of trees that gives out the lightest tree first. Among trees of
//! equal weight the one that was put in first leaves first.

use crate::tree::Tree;
use vstd::prelude::*;

verus! {

/// The place of the lightest tree of `heap`; of several equally light
/// ones, the first.
pub open spec fn min_index(heap: Seq<Tree>) -> int
    decreases heap.len(),
{
    if heap.len() <= 1 {
        0
    } else {
        let best = min_index(heap.drop_last());
        if heap.last().weight() < heap[best].weight() {
            heap.len() - 1
        } else {
            best
        }
    }
}

/// The weights of the trees of `heap`, added up.
pub open spec fn total_weight(heap: Seq<Tree>) -> nat
    decreases heap.len(),
{
    if heap.len() == 0 {
        0
    } else {
        total_weight(heap.drop_last()) + heap.last().weight() as nat
    }
}

/// Some tree of `heap` holds the symbol `b`.
pub open spec fn heap_contains(heap: Seq<Tree>, b: u8) -> bool {
    exists|i: int| 0 <= i < heap.len() && (#[trigger] heap[i]).contains(b)
}

/// The lightest tree has a place in the queue, and none is lighter.
pub proof fn lemma_min_index(heap: Seq<Tree>)
    requires
        heap.len() > 0,
    ensures
        0 <= min_index(heap) < heap.len(),
        forall|i: int| 0 <= i < heap.len() ==> heap[min_index(heap)].weight() <= (#[trigger] heap[i]).weight(),
        forall|i: int| 0 <= i < min_index(heap) ==> heap[min_index(heap)].weight() < (#[trigger] heap[i]).weight(),
    decreases heap.len(),
{
    if heap.len() > 1 {
        lemma_min_index(heap.drop_last());
        assert forall|i: int| 0 <= i < heap.len() implies heap[min_index(heap)].weight() <= (#[trigger] heap[i]).weight() by {
            if i < heap.len() - 1 {
                assert(heap.drop_last()[i] == heap[i]);
            }
        }
        assert forall|i: int| 0 <= i < min_index(heap) implies heap[min_index(heap)].weight() < (#[trigger] heap[i]).weight() by {
            assert(heap.drop_last()[i] == heap[i]);
        }
    }
}

/// A tree that joins the queue adds its weight to the total.
pub proof fn lemma_total_push(heap: Seq<Tree>, tree: Tree)
    ensures
        total_weight(heap.push(tree)) == total_weight(heap) + tree.weight(),
{
    assert(heap.push(tree).drop_last() =~= heap);
}

/// A tree that leaves the queue takes its weight from the total.
pub proof fn lemma_total_remove(heap: Seq<Tree>, i: int)
    requires
        0 <= i < heap.len(),
    ensures
        total_weight(heap.remove(i)) == total_weight(heap) - heap[i].weight(),
    decreases heap.len(),
{
    if i == heap.len() - 1 {
        assert(heap.remove(i) =~= heap.drop_last());
    } else {
        lemma_total_remove(heap.drop_last(), i);
        assert(heap.remove(i).drop_last() =~= heap.drop_last().remove(i));
        assert(heap.remove(i).last() == heap.last());
    }
}

/// The weight stored at the root of `tree`.
pub fn get_value(tree: &Tree) -> (value: usize)
    ensures
        value == tree.weight(),
{
    match tree {
        Tree::Branch { value, .. } => *value,
        Tree::Leaf { value, .. } => *value,
    }
}

/// A queue of trees, lightest first.
pub struct TreeHeap {
    nodes: Vec<Tree>,
}

impl View for TreeHeap {
    type V = Seq<Tree>;

    /// The trees in the order in which they were put in.
    closed spec fn view(&self) -> Seq<Tree> {
        self.nodes@
    }
}

impl TreeHeap {
    /// An empty queue.
    pub fn new() -> (heap: TreeHeap)
        ensures
            heap@ == Seq::<Tree>::empty(),
    {
        TreeHeap { nodes: Vec::new() }
    }

    /// The number of trees in the queue.
    pub fn len(&self) -> (n: usize)
        ensures
            n == self@.len(),
    {
        self.nodes.len()
    }

    /// Puts a tree in, behind those that are there.
    pub fn push(&mut self, tree: Tree)
        ensures
            final(self)@ == old(self)@.push(tree),
    {
        self.nodes.push(tree);
    }

    /// Takes the lightest tree out; of several equally light ones, the
    /// one that was put in first. The others keep their order.
    pub fn pop(&mut self) -> (res: Option<Tree>)
        ensures
            old(self)@.len() == 0 ==> res.is_none() && final(self)@ == old(self)@,
            old(self)@.len() > 0 ==> res == Some(old(self)@[min_index(old(self)@)]) && final(self)@
                == old(self)@.remove(min_index(old(self)@)),
    {
        if self.nodes.len() == 0 {
            return None;
        }
        let mut best: usize = 0;
        let mut i: usize = 1;
        while i < self.nodes.len()
            invariant
                1 <= i <= self.nodes@.len(),
                best < i,
                best == min_index(self.nodes@.take(i as int)),
                *self == *old(self),
            decreases self.nodes@.len() - i,
        {
            proof {
                assert(self.nodes@.take(i + 1).drop_last() =~= self.nodes@.take(i as int));
            }
            if self.nodes[i] > self.nodes[best] {
                best = i;
            }
            i = i + 1;
        }
        proof {
            assert(self.nodes@.take(i as int) =~= self.nodes@);
        }
        Some(self.nodes.remove(best))
    }
}

} // verus!
