//! The order of trees: a lighter tree is the greater one, so that a queue
//! that gives out its greatest item gives out the lightest tree. Trees of
//! equal weight rank equal, whatever they hold.

use crate::heap::get_value;
use crate::tree::Tree;
use std::cmp::Ordering;
use vstd::prelude::*;

verus! {

/// How `a` ranks against `b`: by weight, the lighter one greater.
pub open spec fn rank(a: Tree, b: Tree) -> Ordering {
    if a.weight() < b.weight() {
        Ordering::Greater
    } else if a.weight() == b.weight() {
        Ordering::Equal
    } else {
        Ordering::Less
    }
}

impl Tree {
    /// Compares by weight, the lighter tree counting as greater.
    pub fn cmp(&self, other: &Self) -> (res: Ordering)
        ensures
            res == rank(*self, *other),
    {
        let mine = get_value(self);
        let theirs = get_value(other);
        if mine < theirs {
            Ordering::Greater
        } else if mine == theirs {
            Ordering::Equal
        } else {
            Ordering::Less
        }
    }
}

impl PartialOrd for Tree {
    /// The same order as `cmp`; no two trees are beyond comparing.
    fn partial_cmp(&self, other: &Self) -> (res: Option<Ordering>) {
        Some(self.cmp(other))
    }
}

impl vstd::std_specs::cmp::PartialOrdSpecImpl for Tree {
    open spec fn obeys_partial_cmp_spec() -> bool {
        true
    }

    open spec fn partial_cmp_spec(&self, other: &Self) -> Option<Ordering> {
        Some(rank(*self, *other))
    }
}

} // verus!
