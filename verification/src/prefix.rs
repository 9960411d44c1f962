//! Any prefix-free code, tree or not, costs at least what the code tree of
//! the input costs: a prefix-free code can be laid out as a tree whose
//! codes are no longer.

use crate::codec::{lemma_payload_len, payload};
use crate::exchange::{depth, distinct};
use crate::invariants::lemma_count_single;
use crate::optimal::{
    lemma_cost_below_leaf, lemma_cost_below_paths, lemma_optimal, path_cost_below,
};
use crate::tree::Tree;
use crate::{count, huffman_tree, lemma_count_positive};
use vstd::prelude::*;

verus! {

/// The code words of the symbols of `set` are no prefixes of one another.
pub open spec fn prefix_free(table: Map<u8, Seq<bool>>, set: Set<u8>) -> bool {
    forall|a: u8, b: u8|
        #![trigger set.contains(a), set.contains(b)]
        set.contains(a) && set.contains(b) && a != b ==> !table[a].is_prefix_of(table[b])
}

/// The code words of the symbols of `set` have at least `d` bits and
/// agree in their first `d` bits.
pub open spec fn same_start(table: Map<u8, Seq<bool>>, set: Set<u8>, d: int) -> bool {
    &&& forall|a: u8| set.contains(a) ==> table[a].len() >= d
    &&& forall|a: u8, b: u8|
        #![trigger set.contains(a), set.contains(b)]
        set.contains(a) && set.contains(b) ==> table[a].take(d) == table[b].take(d)
}

/// The code word of `b` has a bit `d`, and it is 1.
pub open spec fn goes_right(table: Map<u8, Seq<bool>>, b: u8, d: int) -> bool {
    table[b].len() > d && table[b][d]
}

/// The symbols of `set` whose code word goes to the given side at bit `d`.
pub open spec fn side_of(table: Map<u8, Seq<bool>>, set: Set<u8>, d: int, right: bool) -> Set<u8> {
    Set::new(|b: u8| set.contains(b) && goes_right(table, b, d) == right)
}

/// No symbol of `set` goes to the given side at bit `d`.
pub open spec fn none_on(table: Map<u8, Seq<bool>>, set: Set<u8>, d: int, right: bool) -> bool {
    forall|b: u8| set.contains(b) ==> goes_right(table, b, d) != right
}

/// `set` has no two different symbols.
pub open spec fn at_most_one(set: Set<u8>) -> bool {
    forall|a: u8, b: u8|
        #![trigger set.contains(a), set.contains(b)]
        set.contains(a) && set.contains(b) ==> a == b
}

/// The tree of the code words of `set` from bit `d` on, with every branch
/// that has only one side left out.
pub open spec fn layout(table: Map<u8, Seq<bool>>, set: Set<u8>, d: int, fuel: nat) -> Tree
    decreases fuel,
{
    if fuel == 0 || at_most_one(set) {
        Tree::Leaf { value: 0, byte: choose|x: u8| set.contains(x) }
    } else {
        let left = side_of(table, set, d, false);
        let right = side_of(table, set, d, true);
        if none_on(table, set, d, false) {
            layout(table, set, d + 1, (fuel - 1) as nat)
        } else if none_on(table, set, d, true) {
            layout(table, set, d + 1, (fuel - 1) as nat)
        } else {
            Tree::Branch {
                value: 0,
                left: Box::new(layout(table, left, d + 1, (fuel - 1) as nat)),
                right: Box::new(layout(table, right, d + 1, (fuel - 1) as nat)),
            }
        }
    }
}

/// What a table costs on `s`, counting the symbols below `k`: for each,
/// the length of its code word times how often it occurs.
pub open spec fn table_cost_below(table: Map<u8, Seq<bool>>, s: Seq<u8>, k: int) -> int
    decreases k,
{
    if k <= 0 {
        0
    } else {
        table_cost_below(table, s, k - 1) + count(s, (k - 1) as u8) * table[(k - 1) as u8].len()
    }
}

proof fn lemma_longer(table: Map<u8, Seq<bool>>, set: Set<u8>, d: int, a: u8)
    requires
        prefix_free(table, set),
        same_start(table, set, d),
        0 <= d,
        !at_most_one(set),
        set.contains(a),
    ensures
        table[a].len() > d,
{
    let (x, y) = choose|x: u8, y: u8|
        #![trigger set.contains(x), set.contains(y)]
        set.contains(x) && set.contains(y) && x != y;
    let c = if a == x {
        y
    } else {
        x
    };
    assert(set.contains(a) && set.contains(c));
    assert(table[a].take(d) == table[c].take(d));
    if table[a].len() == d {
        assert(table[a] =~= table[a].take(d));
        assert(table[c].take(d) =~= table[c].subrange(0, d));
        assert(table[a].is_prefix_of(table[c]));
    }
}

proof fn lemma_side(table: Map<u8, Seq<bool>>, set: Set<u8>, d: int, right: bool, whole: bool)
    requires
        prefix_free(table, set),
        same_start(table, set, d),
        0 <= d,
        !at_most_one(set),
    ensures
        prefix_free(table, side_of(table, set, d, right)),
        same_start(table, side_of(table, set, d, right), d + 1),
        whole && none_on(table, set, d, !right) ==> same_start(table, set, d + 1),
{
    let part = side_of(table, set, d, right);
    assert forall|a: u8, b: u8|
        #![trigger part.contains(a), part.contains(b)]
        part.contains(a) && part.contains(b) && a != b implies !table[a].is_prefix_of(table[b]) by {
        assert(set.contains(a) && set.contains(b));
    }
    assert forall|a: u8| part.contains(a) implies table[a].len() >= d + 1 by {
        lemma_longer(table, set, d, a);
    }
    assert forall|a: u8, b: u8|
        #![trigger part.contains(a), part.contains(b)]
        part.contains(a) && part.contains(b) implies table[a].take(d + 1) == table[b].take(
        d + 1,
    ) by {
        assert(set.contains(a) && set.contains(b));
        lemma_longer(table, set, d, a);
        lemma_longer(table, set, d, b);
        assert(table[a].take(d) == table[b].take(d));
        assert(table[a].take(d + 1) =~= table[a].take(d).push(table[a][d]));
        assert(table[b].take(d + 1) =~= table[b].take(d).push(table[b][d]));
    }
    if whole && none_on(table, set, d, !right) {
        assert forall|a: u8| set.contains(a) implies part.contains(a) by {
            assert(goes_right(table, a, d) != !right);
        }
        assert forall|a: u8| set.contains(a) implies table[a].len() >= d + 1 by {
            assert(part.contains(a));
        }
        assert forall|a: u8, b: u8|
            #![trigger set.contains(a), set.contains(b)]
            set.contains(a) && set.contains(b) implies table[a].take(d + 1) == table[b].take(
            d + 1,
        ) by {
            assert(part.contains(a) && part.contains(b));
        }
    }
}

/// The layout of a prefix-free code holds each symbol once, no deeper
/// than its code word is long.
pub proof fn lemma_layout(
    table: Map<u8, Seq<bool>>,
    set: Set<u8>,
    d: int,
    fuel: nat,
    longest: int,
)
    requires
        exists|x: u8| set.contains(x),
        prefix_free(table, set),
        same_start(table, set, d),
        0 <= d,
        forall|a: u8| set.contains(a) ==> table[a].len() <= longest,
        fuel >= longest - d,
    ensures
        distinct(layout(table, set, d, fuel)),
        forall|b: u8| layout(table, set, d, fuel).contains(b) <==> set.contains(b),
        forall|b: u8|
            set.contains(b) ==> depth(layout(table, set, d, fuel), b) <= table[b].len() - d,
    decreases fuel,
{
    let t = layout(table, set, d, fuel);
    if at_most_one(set) {
        let x = choose|x: u8| set.contains(x);
        assert forall|b: u8| t.contains(b) <==> set.contains(b) by {
            if set.contains(b) {
                assert(set.contains(b) && set.contains(x));
            }
        }
    } else {
        let x = choose|x: u8| set.contains(x);
        lemma_longer(table, set, d, x);
        assert(fuel > 0);
        let left = side_of(table, set, d, false);
        let right = side_of(table, set, d, true);
        lemma_side(table, set, d, false, true);
        lemma_side(table, set, d, true, true);
        let rest = (fuel - 1) as nat;
        if none_on(table, set, d, false) {
            lemma_layout(table, set, d + 1, rest, longest);
        } else if none_on(table, set, d, true) {
            lemma_layout(table, set, d + 1, rest, longest);
        } else {
            let some_left = choose|b: u8| set.contains(b) && !(goes_right(table, b, d) != false);
            let some_right = choose|b: u8| set.contains(b) && !(goes_right(table, b, d) != true);
            assert(left.contains(some_left));
            assert(right.contains(some_right));
            let l = layout(table, left, d + 1, rest);
            let r = layout(table, right, d + 1, rest);
            lemma_layout(table, left, d + 1, rest, longest);
            lemma_layout(table, right, d + 1, rest, longest);
            assert(t == Tree::Branch { value: 0, left: Box::new(l), right: Box::new(r) });
            assert forall|b: u8| !(l.contains(b) && r.contains(b)) by {
                assert(!(left.contains(b) && right.contains(b)));
            }
            assert forall|b: u8| t.contains(b) <==> set.contains(b) by {
                assert(t.contains(b) == (l.contains(b) || r.contains(b)));
                assert(left.contains(b) || right.contains(b) <==> set.contains(b));
            }
            assert forall|b: u8| set.contains(b) implies depth(t, b) <= table[b].len() - d by {
                assert(left.contains(b) || right.contains(b));
                assert(!(left.contains(b) && right.contains(b)));
                if l.contains(b) {
                    assert(depth(t, b) == 1 + depth(l, b));
                } else {
                    assert(depth(t, b) == 1 + depth(r, b));
                }
            }
        }
    }
}

proof fn lemma_path_depth(t: Tree, b: u8)
    requires
        distinct(t),
        t.contains(b),
    ensures
        t.path_to(b).len() == depth(t, b),
    decreases t,
{
    match t {
        Tree::Leaf { .. } => {},
        Tree::Branch { left, right, .. } => {
            assert(!(left.contains(b) && right.contains(b)));
            if right.contains(b) {
                lemma_path_depth(*right, b);
            } else {
                lemma_path_depth(*left, b);
            }
        },
    }
}

proof fn lemma_table_cost(t: Tree, table: Map<u8, Seq<bool>>, s: Seq<u8>, k: int)
    requires
        distinct(t),
        forall|b: u8| t.contains(b) ==> depth(t, b) <= table[b].len(),
        0 <= k <= 256,
    ensures
        path_cost_below(t, s, k) <= table_cost_below(table, s, k),
    decreases k,
{
    if k > 0 {
        lemma_table_cost(t, table, s, k - 1);
        let b = (k - 1) as u8;
        let c = count(s, b) as int;
        let l = table[b].len() as int;
        if t.contains(b) {
            lemma_path_depth(t, b);
            let p = t.path_to(b).len() as int;
            assert(c * p <= c * l) by (nonlinear_arith)
                requires
                    0 <= c,
                    p <= l,
            ;
        } else {
            assert(0 <= c * l) by (nonlinear_arith)
                requires
                    0 <= c,
                    0 <= l,
            ;
        }
    }
}

proof fn lemma_table_cost_single(table: Map<u8, Seq<bool>>, s: Seq<u8>, x: u8, k: int)
    requires
        forall|i: int| 0 <= i < s.len() ==> s[i] == x,
        table[x].len() >= 1,
        0 <= k <= 256,
    ensures
        table_cost_below(table, s, k) >= if x < k {
            s.len() as int
        } else {
            0
        },
    decreases k,
{
    if k > 0 {
        lemma_table_cost_single(table, s, x, k - 1);
        let b = (k - 1) as u8;
        lemma_count_single(s, x, b);
        let c = count(s, b) as int;
        let l = table[b].len() as int;
        if b == x {
            assert(c * l >= c) by (nonlinear_arith)
                requires
                    0 <= c,
                    1 <= l,
            ;
        } else {
            assert(c * l == 0) by (nonlinear_arith)
                requires
                    c == 0,
            ;
        }
    }
}

/// The longest code word among the symbols below `k`.
pub open spec fn longest_below(table: Map<u8, Seq<bool>>, k: int) -> int
    decreases k,
{
    if k <= 0 {
        0
    } else if table[(k - 1) as u8].len() > longest_below(table, k - 1) {
        table[(k - 1) as u8].len() as int
    } else {
        longest_below(table, k - 1)
    }
}

proof fn lemma_longest(table: Map<u8, Seq<bool>>, k: int, b: u8)
    requires
        0 <= b < k <= 256,
    ensures
        table[b].len() <= longest_below(table, k),
        0 <= longest_below(table, k),
    decreases k,
{
    if b < k - 1 {
        lemma_longest(table, k - 1, b);
    } else if k - 1 > 0 {
        lemma_longest(table, k - 1, 0);
    }
}

/// No prefix-free code that spends at least one bit on each symbol costs
/// less than the code tree of the input: the sum, over the symbols, of the
/// length of the code word times the number of occurrences is at least the
/// length of the payload.
pub proof fn lemma_optimal_code(input: Seq<u8>, table: Map<u8, Seq<bool>>)
    requires
        0 < input.len() <= usize::MAX,
        forall|b: u8| count(input, b) > 0 ==> table[b].len() >= 1,
        forall|a: u8, b: u8|
            #![trigger count(input, a), count(input, b)]
            count(input, a) > 0 && count(input, b) > 0 && a != b ==> !table[a].is_prefix_of(
                table[b],
            ),
    ensures
        payload(huffman_tree(input), input).len() <= table_cost_below(table, input, 256),
{
    let set = Set::new(|b: u8| count(input, b) > 0);
    let longest = longest_below(table, 256);
    lemma_longest(table, 256, 0);
    let fuel = longest as nat;
    let t = layout(table, set, 0, fuel);
    lemma_count_positive(input, 0);
    assert(set.contains(input[0]));
    assert forall|a: u8| set.contains(a) implies table[a].len() <= longest by {
        lemma_longest(table, 256, a);
    }
    assert forall|a: u8, b: u8|
        #![trigger set.contains(a), set.contains(b)]
        set.contains(a) && set.contains(b) implies table[a].take(0) == table[b].take(0) by {
        assert(table[a].take(0) =~= table[b].take(0));
    }
    lemma_layout(table, set, 0, fuel, longest);
    assert forall|b: u8| t.contains(b) <==> count(input, b) > 0 by {
        assert(set.contains(b) == (count(input, b) > 0));
        assert(t.contains(b) <==> set.contains(b));
    }
    assert forall|b: u8| t.contains(b) implies depth(t, b) <= table[b].len() by {
        assert(set.contains(b));
    }
    lemma_optimal(input, t);
    lemma_payload_len(t, input);
    match t {
        Tree::Leaf { byte, .. } => {
            assert forall|i: int| 0 <= i < input.len() implies input[i] == byte by {
                lemma_count_positive(input, i);
                assert(t.contains(input[i]));
            }
            lemma_cost_below_leaf(t, input, 256);
            assert(t.contains(byte));
            lemma_table_cost_single(table, input, byte, 256);
        },
        Tree::Branch { .. } => {
            lemma_cost_below_paths(t, input, 256);
            lemma_table_cost(t, table, input, 256);
        },
    }
}

} // verus!
