use huff::heap::get_value;
use huff::tree::Tree;
use huff::{bin_heap_min, encode, frequencies, to_bool_path, to_tree, Direction};

#[test]
fn test_frequencies() {
    let result = frequencies("aabcccca".as_bytes());
    assert_eq!(result.len(), 3);

    assert_eq!(result.get(&b'a').unwrap(), &3);
    assert_eq!(result.get(&b'b').unwrap(), &1);
    assert_eq!(result.get(&b'c').unwrap(), &4);
}

#[test]
fn test_bin_min_heap() {
    let mut result = bin_heap_min("aabcccca".as_bytes());
    assert_eq!(result.len(), 3);

    assert_eq!(
        match result.pop() {
            Some(Tree::Leaf { byte: x, .. }) => x,
            _ => panic!("Expected leaf"),
        },
        b'b'
    );
}

#[test]
fn test_travers() {
    let (table, _) = encode("aaabbc".as_bytes());
    assert_eq!(table.get(&b'a').unwrap(), &vec![false]);
    assert_eq!(table.get(&b'c').unwrap(), &vec![true, false]);
    assert_eq!(table.get(&b'b').unwrap(), &vec![true, true]);
}

#[test]
fn frequencies_of_nothing_are_empty() {
    assert!(frequencies(&[]).is_empty());
}

#[test]
fn frequencies_add_up_to_the_length() {
    let input = b"the quick brown fox jumps over the lazy dog";
    let total: usize = frequencies(input).values().sum();
    assert_eq!(total, input.len());
}

#[test]
fn heap_pops_by_weight_then_by_arrival() {
    let mut heap = bin_heap_min(b"ccbbaad");
    assert_eq!(heap.len(), 4);
    let order: Vec<(usize, u8)> = (0..4)
        .map(|_| match heap.pop() {
            Some(Tree::Leaf { value, byte }) => (value, byte),
            _ => panic!("a leaf is due"),
        })
        .collect();
    assert_eq!(order, vec![(1, b'd'), (2, b'a'), (2, b'b'), (2, b'c')]);
    assert!(heap.pop().is_none());
}

#[test]
fn tree_of_three_symbols() {
    let tree = to_tree(b"aaabbc");
    let expected = Tree::Branch {
        value: 6,
        left: Box::new(Tree::Leaf { value: 3, byte: b'a' }),
        right: Box::new(Tree::Branch {
            value: 3,
            left: Box::new(Tree::Leaf { value: 1, byte: b'c' }),
            right: Box::new(Tree::Leaf { value: 2, byte: b'b' }),
        }),
    };
    assert_eq!(tree, expected);
    assert_eq!(get_value(&tree), 6);
}

#[test]
fn tree_of_one_symbol_is_a_leaf() {
    assert_eq!(to_tree(b"aaaa"), Tree::Leaf { value: 4, byte: b'a' });
    let (table, tree) = encode(b"aaaa");
    assert_eq!(tree, Tree::Leaf { value: 4, byte: b'a' });
    assert_eq!(table.len(), 1);
    assert_eq!(table.get(&b'a').unwrap(), &vec![false]);
}

#[test]
fn codes_are_prefix_free() {
    let input = b"abracadabra alakazam";
    let (table, _) = encode(input);
    for (a, code_a) in table.iter() {
        for (b, code_b) in table.iter() {
            if a != b {
                assert!(!code_b.starts_with(code_a));
            }
        }
    }
}

#[test]
fn table_has_one_code_for_each_symbol() {
    let input = b"mississippi";
    let (table, tree) = encode(input);
    assert_eq!(table.len(), 4);
    assert_eq!(get_value(&tree), input.len());
    let cost: usize = input.iter().map(|b| table.get(b).unwrap().len()).sum();
    assert_eq!(cost, 21);
}

#[test]
fn directions_are_bits() {
    assert!(!Direction::Left.to_bool());
    assert!(Direction::Right.to_bool());
    assert_eq!(
        to_bool_path(&[Direction::Right, Direction::Left, Direction::Right]),
        vec![true, false, true]
    );
    assert_eq!(to_bool_path(&[]), Vec::<bool>::new());
}

#[test]
fn lighter_trees_rank_higher() {
    let light = Tree::Leaf { value: 1, byte: b'x' };
    let heavy = Tree::Branch {
        value: 2,
        left: Box::new(Tree::Leaf { value: 1, byte: b'a' }),
        right: Box::new(Tree::Leaf { value: 1, byte: b'b' }),
    };
    let other = Tree::Leaf { value: 2, byte: b'y' };
    assert_eq!(light.partial_cmp(&heavy), Some(std::cmp::Ordering::Greater));
    assert_eq!(heavy.partial_cmp(&light), Some(std::cmp::Ordering::Less));
    assert_eq!(heavy.partial_cmp(&other), Some(std::cmp::Ordering::Equal));
    assert!(light > heavy);
    assert!(!(heavy > other));
}

#[test]
fn bits_as_text() {
    assert_eq!(huff::text::bool_vec_to_string(&[true, false, false, true]), "1001");
    assert_eq!(huff::text::bool_vec_to_string(&[]), "");
}

fn payload_bits(tree: &Tree, input: &[u8]) -> usize {
    let mut table = std::collections::HashMap::new();
    huff::traverse_inner(tree, Vec::new(), &mut table);
    input.iter().map(|b| table.get(b).unwrap().len()).sum()
}

#[test]
fn no_other_tree_of_three_symbols_is_cheaper() {
    let input = b"aaabbc";
    let leaf = |byte: u8| Box::new(Tree::Leaf { value: 0, byte });
    let join = |left: Box<Tree>, right: Box<Tree>| Box::new(Tree::Branch { value: 0, left, right });
    let built = payload_bits(&to_tree(input), input);
    assert_eq!(built, 9);
    let others = [
        join(leaf(b'a'), join(leaf(b'b'), leaf(b'c'))),
        join(join(leaf(b'a'), leaf(b'b')), leaf(b'c')),
        join(join(leaf(b'a'), leaf(b'c')), leaf(b'b')),
        join(leaf(b'b'), join(leaf(b'a'), leaf(b'c'))),
        join(leaf(b'c'), join(leaf(b'a'), leaf(b'b'))),
    ];
    let costs: Vec<usize> = others.iter().map(|t| payload_bits(t, input)).collect();
    assert_eq!(costs, vec![9, 11, 10, 10, 11]);
    assert!(costs.iter().all(|c| built <= *c));
}

#[test]
fn traverse_keeps_the_later_leaf_of_a_symbol() {
    let tree = Tree::Branch {
        value: 0,
        left: Box::new(Tree::Leaf { value: 0, byte: b'x' }),
        right: Box::new(Tree::Leaf { value: 0, byte: b'x' }),
    };
    let mut table = std::collections::HashMap::new();
    table.insert(b'y', vec![true, true, true]);
    huff::traverse_inner(&tree, vec![Direction::Left], &mut table);
    assert_eq!(table.get(&b'x').unwrap(), &vec![false, true]);
    assert_eq!(table.get(&b'y').unwrap(), &vec![true, true, true]);
    assert_eq!(table.len(), 2);
}

#[test]
fn heap_built_by_hand() {
    let mut heap = huff::heap::TreeHeap::new();
    assert_eq!(heap.len(), 0);
    assert!(heap.pop().is_none());
    heap.push(Tree::Leaf { value: 5, byte: 1 });
    heap.push(Tree::Leaf { value: 2, byte: 2 });
    heap.push(Tree::Leaf { value: 2, byte: 3 });
    assert_eq!(heap.len(), 3);
    assert_eq!(heap.pop(), Some(Tree::Leaf { value: 2, byte: 2 }));
    assert_eq!(heap.pop(), Some(Tree::Leaf { value: 2, byte: 3 }));
    assert_eq!(heap.pop(), Some(Tree::Leaf { value: 5, byte: 1 }));
    assert_eq!(heap.len(), 0);
}

#[test]
fn cmp_reverses_the_order_of_weights() {
    let light = Tree::Leaf { value: 1, byte: b'x' };
    let heavy = Tree::Leaf { value: 7, byte: b'x' };
    assert_eq!(light.cmp(&heavy), std::cmp::Ordering::Greater);
    assert_eq!(heavy.cmp(&light), std::cmp::Ordering::Less);
    assert_eq!(heavy.cmp(&heavy), std::cmp::Ordering::Equal);
}
