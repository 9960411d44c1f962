//! The code tree and what it means: which symbols it holds, the code of
//! each symbol, and its bit encoding.

use crate::bits::byte_bits;
use vstd::prelude::*;

verus! {

/// A binary code tree. A leaf stands for one symbol; a branch joins two
/// subtrees. `value` is the weight: how often the symbols below occur.
#[derive(Debug, Eq, PartialEq)]
pub enum Tree {
    Leaf { value: usize, byte: u8 },
    Branch { value: usize, left: Box<Tree>, right: Box<Tree> },
}

impl Tree {
    /// The weight stored at the root.
    pub open spec fn weight(self) -> usize {
        match self {
            Tree::Leaf { value, .. } => value,
            Tree::Branch { value, .. } => value,
        }
    }

    /// Some leaf of the tree stands for `b`.
    pub open spec fn contains(self, b: u8) -> bool
        decreases self,
    {
        match self {
            Tree::Leaf { byte, .. } => byte == b,
            Tree::Branch { left, right, .. } => left.contains(b) || right.contains(b),
        }
    }

    /// Every branch weighs as much as its two subtrees together, and no
    /// symbol stands at two leaves.
    pub open spec fn well_formed(self) -> bool
        decreases self,
    {
        match self {
            Tree::Leaf { .. } => true,
            Tree::Branch { value, left, right } => {
                &&& left.well_formed()
                &&& right.well_formed()
                &&& value == left.weight() + right.weight()
                &&& forall|b: u8| !(left.contains(b) && right.contains(b))
            },
        }
    }

    /// The way from the root to the leaf of `b`: `false` goes left, `true`
    /// goes right. Where `b` stands on both sides, the right one counts.
    pub open spec fn path_to(self, b: u8) -> Seq<bool>
        decreases self,
    {
        match self {
            Tree::Leaf { .. } => Seq::empty(),
            Tree::Branch { left, right, .. } => if right.contains(b) {
                seq![true] + right.path_to(b)
            } else {
                seq![false] + left.path_to(b)
            },
        }
    }

    /// The code of `b`: its path, or the single bit 0 where the whole tree
    /// is one leaf, so that every occurrence costs one bit.
    pub open spec fn code(self, b: u8) -> Seq<bool> {
        match self {
            Tree::Leaf { .. } => seq![false],
            Tree::Branch { .. } => self.path_to(b),
        }
    }

    /// The subtree that one bit leads to; a leaf leads to itself.
    pub open spec fn step(self, bit: bool) -> Tree {
        match self {
            Tree::Leaf { .. } => self,
            Tree::Branch { left, right, .. } => if bit {
                *right
            } else {
                *left
            },
        }
    }

    /// The tree in pre-order: a branch is bit 1 and its two subtrees, a
    /// leaf is bit 0 and the eight bits of its symbol. Weights are not part
    /// of it.
    pub open spec fn encoding(self) -> Seq<bool>
        decreases self,
    {
        match self {
            Tree::Leaf { byte, .. } => seq![false] + byte_bits(byte),
            Tree::Branch { left, right, .. } => seq![true] + left.encoding() + right.encoding(),
        }
    }

    /// The same tree with every weight 0: what is left of a tree after it
    /// was written and read back.
    pub open spec fn shape(self) -> Tree
        decreases self,
    {
        match self {
            Tree::Leaf { byte, .. } => Tree::Leaf { value: 0, byte },
            Tree::Branch { left, right, .. } => Tree::Branch {
                value: 0,
                left: Box::new(left.shape()),
                right: Box::new(right.shape()),
            },
        }
    }

    /// Weights play no part in which symbols a tree holds or in its codes.
    pub proof fn lemma_shape(self, b: u8)
        ensures
            self.shape().contains(b) == self.contains(b),
            self.shape().path_to(b) == self.path_to(b),
            self.shape().code(b) == self.code(b),
            self.shape().encoding() == self.encoding(),
        decreases self,
    {
        match self {
            Tree::Leaf { .. } => {},
            Tree::Branch { left, right, .. } => {
                left.lemma_shape(b);
                right.lemma_shape(b);
            },
        }
    }
}

} // verus!
