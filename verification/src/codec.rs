//! The tree and the payload as bits: writing them, reading them back, and
//! what a bit sequence decodes to.

use crate::bits::{byte_bits, byte_of, lemma_byte_of_bits};
use crate::bitwriter::BitWriter;
use crate::error::Error;
use crate::reader::{next_bit, next_byte, reader_bits, BitReader};
use crate::tree::Tree;
use crate::count;
use std::collections::HashMap;
use vstd::prelude::*;

verus! {

/// The tree that a bit sequence begins with, and the number of bits that it
/// takes; `None` where the bits end before the tree does. All weights are 0.
pub open spec fn parse_tree(bits: Seq<bool>) -> Option<(Tree, int)>
    decreases bits.len(),
{
    if bits.len() == 0 {
        None
    } else if !bits[0] {
        if bits.len() >= 9 {
            Some((Tree::Leaf { value: 0, byte: byte_of(bits.subrange(1, 9)) }, 9int))
        } else {
            None
        }
    } else {
        match parse_tree(bits.skip(1)) {
            None => None,
            Some((left, n)) => if n < 0 || 1 + n > bits.len() {
                None
            } else {
                match parse_tree(bits.skip(1 + n)) {
                    None => None,
                    Some((right, m)) => Some(
                        (
                            Tree::Branch { value: 0, left: Box::new(left), right: Box::new(right) },
                            1 + n + m,
                        ),
                    ),
                }
            },
        }
    }
}

/// What `bits` decode to when the walk stands at `cur`: each bit leads one
/// step down, and a leaf gives its symbol and sends the walk back to `root`.
/// Bits that end between root and leaf give nothing.
pub open spec fn decode_from(root: Tree, cur: Tree, bits: Seq<bool>) -> Seq<u8>
    decreases bits.len(),
{
    if bits.len() == 0 {
        Seq::empty()
    } else {
        let next = cur.step(bits[0]);
        match next {
            Tree::Leaf { byte, .. } => seq![byte] + decode_from(root, root, bits.skip(1)),
            Tree::Branch { .. } => decode_from(root, next, bits.skip(1)),
        }
    }
}

/// What `bits` decode to under `tree`.
pub open spec fn decode(tree: Tree, bits: Seq<bool>) -> Seq<u8> {
    decode_from(tree, tree, bits)
}

/// The codes of the symbols of `data` under `tree`, one after the other.
pub open spec fn payload(tree: Tree, data: Seq<u8>) -> Seq<bool>
    decreases data.len(),
{
    if data.len() == 0 {
        Seq::empty()
    } else {
        tree.code(data[0]) + payload(tree, data.skip(1))
    }
}

/// The entries of `table` for the symbols of `data`, one after the other.
pub open spec fn table_payload(table: Map<u8, Vec<bool>>, data: Seq<u8>) -> Seq<bool>
    decreases data.len(),
{
    if data.len() == 0 {
        Seq::empty()
    } else {
        table_payload(table, data.drop_last()) + table[data.last()]@
    }
}

/// `table` holds the code of every symbol of `tree`, and nothing else.
pub open spec fn is_code_table(table: Map<u8, Vec<bool>>, tree: Tree) -> bool {
    &&& forall|b: u8| table.contains_key(b) <==> tree.contains(b)
    &&& forall|b: u8| #![trigger tree.contains(b)] tree.contains(b) ==> table[b]@ == tree.code(b)
}

/// Appending a symbol to the data appends its code to the payload.
pub proof fn lemma_payload_push(tree: Tree, data: Seq<u8>, b: u8)
    ensures
        payload(tree, data.push(b)) == payload(tree, data) + tree.code(b),
    decreases data.len(),
{
    if data.len() == 0 {
        assert(data.push(b).skip(1) =~= Seq::<u8>::empty());
        assert(payload(tree, data.push(b).skip(1)) =~= Seq::<bool>::empty());
        assert(payload(tree, data.push(b)) =~= tree.code(b));
        assert(payload(tree, data) + tree.code(b) =~= tree.code(b));
    } else {
        lemma_payload_push(tree, data.skip(1), b);
        assert(data.push(b).skip(1) =~= data.skip(1).push(b));
        assert(payload(tree, data.push(b)) =~= payload(tree, data) + tree.code(b));
    }
}

/// The bits that the symbols below `k` take in the payload of `data`: for
/// each of them, the length of its code times how often it occurs.
pub open spec fn cost_below(tree: Tree, data: Seq<u8>, k: int) -> nat
    decreases k,
{
    if k <= 0 {
        0
    } else {
        cost_below(tree, data, k - 1) + count(data, (k - 1) as u8) * tree.code((k - 1) as u8).len()
    }
}

proof fn lemma_cost_below_step(tree: Tree, data: Seq<u8>, k: int)
    requires
        data.len() > 0,
        0 <= k <= 256,
    ensures
        cost_below(tree, data, k) == cost_below(tree, data.drop_last(), k) + if data.last() < k {
            tree.code(data.last()).len()
        } else {
            0
        },
    decreases k,
{
    if k > 0 {
        lemma_cost_below_step(tree, data, k - 1);
        let b = (k - 1) as u8;
        let c = count(data.drop_last(), b);
        let l = tree.code(b).len();
        assert((c + 1) * l == c * l + l) by (nonlinear_arith);
    }
}

proof fn lemma_cost_below_empty(tree: Tree, data: Seq<u8>, k: int)
    requires
        data.len() == 0,
    ensures
        cost_below(tree, data, k) == 0,
    decreases k,
{
    if k > 0 {
        lemma_cost_below_empty(tree, data, k - 1);
        let l = tree.code((k - 1) as u8).len();
        assert(0 * l == 0) by (nonlinear_arith);
    }
}

/// The payload is as long as the codes of all symbols together, each
/// counted as often as its symbol occurs.
pub proof fn lemma_payload_len(tree: Tree, data: Seq<u8>)
    ensures
        payload(tree, data).len() == cost_below(tree, data, 256),
    decreases data.len(),
{
    if data.len() == 0 {
        lemma_cost_below_empty(tree, data, 256);
    } else {
        lemma_payload_len(tree, data.drop_last());
        lemma_payload_push(tree, data.drop_last(), data.last());
        assert(data.drop_last().push(data.last()) =~= data);
        lemma_cost_below_step(tree, data, 256);
    }
}

/// A table made from a tree gives the payload of that tree.
pub proof fn lemma_table_payload(table: Map<u8, Vec<bool>>, tree: Tree, data: Seq<u8>)
    requires
        is_code_table(table, tree),
        forall|i: int| 0 <= i < data.len() ==> tree.contains(#[trigger] data[i]),
    ensures
        table_payload(table, data) == payload(tree, data),
    decreases data.len(),
{
    if data.len() > 0 {
        lemma_table_payload(table, tree, data.drop_last());
        lemma_payload_push(tree, data.drop_last(), data.last());
        assert(data.drop_last().push(data.last()) =~= data);
        assert(tree.contains(data[data.len() - 1]));
    }
}

/// Reading back what was written gives the tree back, but for its weights:
/// a bit sequence that begins with the encoding of `tree` parses to the
/// shape of `tree` and to the length of that encoding.
pub proof fn lemma_parse_encoding(tree: Tree, rest: Seq<bool>)
    ensures
        parse_tree(tree.encoding() + rest) == Some((tree.shape(), tree.encoding().len() as int)),
    decreases tree,
{
    let bits = tree.encoding() + rest;
    match tree {
        Tree::Leaf { byte, .. } => {
            assert(bits.subrange(1, 9) =~= byte_bits(byte));
            lemma_byte_of_bits(byte);
        },
        Tree::Branch { left, right, .. } => {
            let n = left.encoding().len() as int;
            let m = right.encoding().len() as int;
            assert(bits.skip(1) =~= left.encoding() + (right.encoding() + rest));
            lemma_parse_encoding(*left, right.encoding() + rest);
            assert(bits.skip(1 + n) =~= right.encoding() + rest);
            lemma_parse_encoding(*right, rest);
        },
    }
}

/// The code of a symbol, read from a branch, gives that symbol and leaves
/// the walk at the root.
pub proof fn lemma_decode_symbol(root: Tree, cur: Tree, b: u8, rest: Seq<bool>)
    requires
        cur is Branch,
        cur.contains(b),
    ensures
        decode_from(root, cur, cur.path_to(b) + rest) == seq![b] + decode_from(root, root, rest),
    decreases cur,
{
    let bits = cur.path_to(b) + rest;
    match cur {
        Tree::Leaf { .. } => {},
        Tree::Branch { left, right, .. } => {
            let bit = right.contains(b);
            let next = if bit {
                *right
            } else {
                *left
            };
            assert(cur.path_to(b) =~= seq![bit] + next.path_to(b));
            assert(bits[0] == bit);
            assert(next == cur.step(bits[0]));
            assert(next.contains(b));
            assert(bits.skip(1) =~= next.path_to(b) + rest);
            match next {
                Tree::Leaf { .. } => {
                    assert(next.path_to(b) + rest =~= rest);
                },
                Tree::Branch { .. } => {
                    lemma_decode_symbol(root, next, b, rest);
                },
            }
        },
    }
}

/// Decoding the payload of `data` gives `data` back.
pub proof fn lemma_decode_payload(tree: Tree, data: Seq<u8>)
    requires
        forall|i: int| 0 <= i < data.len() ==> tree.contains(#[trigger] data[i]),
    ensures
        decode(tree, payload(tree, data)) == data,
    decreases data.len(),
{
    if data.len() > 0 {
        let rest = payload(tree, data.skip(1));
        let bits = payload(tree, data);
        assert(tree.contains(data[0]));
        assert forall|i: int| 0 <= i < data.skip(1).len() implies tree.contains(
            #[trigger] data.skip(1)[i],
        ) by {
            assert(data.skip(1)[i] == data[i + 1]);
        }
        lemma_decode_payload(tree, data.skip(1));
        match tree {
            Tree::Leaf { .. } => {
                assert(bits.skip(1) =~= rest);
            },
            Tree::Branch { .. } => {
                lemma_decode_symbol(tree, tree, data[0], rest);
            },
        }
        assert(seq![data[0]] + data.skip(1) =~= data);
    }
}

/// The payload does not depend on the weights of the tree.
pub proof fn lemma_payload_shape(tree: Tree, data: Seq<u8>)
    ensures
        payload(tree.shape(), data) == payload(tree, data),
    decreases data.len(),
{
    if data.len() > 0 {
        tree.lemma_shape(data[0]);
        lemma_payload_shape(tree, data.skip(1));
    }
}

/// No code is the beginning of another: for two different symbols of a
/// tree, the code of the one is no prefix of the code of the other.
pub proof fn lemma_prefix_free(tree: Tree, a: u8, b: u8)
    requires
        tree.contains(a),
        tree.contains(b),
        a != b,
    ensures
        !tree.code(a).is_prefix_of(tree.code(b)),
{
    lemma_paths_prefix_free(tree, a, b);
}

proof fn lemma_paths_prefix_free(tree: Tree, a: u8, b: u8)
    requires
        tree.contains(a),
        tree.contains(b),
        a != b,
    ensures
        !tree.path_to(a).is_prefix_of(tree.path_to(b)),
    decreases tree,
{
    match tree {
        Tree::Leaf { .. } => {},
        Tree::Branch { left, right, .. } => {
            let pa = tree.path_to(a);
            let pb = tree.path_to(b);
            if pa.is_prefix_of(pb) {
                assert(pa[0] == pb.subrange(0, pa.len() as int)[0]);
                let child = if right.contains(a) {
                    *right
                } else {
                    *left
                };
                assert(child.contains(b));
                lemma_paths_prefix_free(child, a, b);
                let ca = child.path_to(a);
                let cb = child.path_to(b);
                assert(pa.skip(1) =~= ca);
                assert(pb.skip(1) =~= cb);
                assert(ca =~= cb.subrange(0, ca.len() as int)) by {
                    assert forall|i: int| 0 <= i < ca.len() implies ca[i] == cb[i] by {
                        assert(pa[i + 1] == pb.subrange(0, pa.len() as int)[i + 1]);
                    }
                }
                assert(false);
            }
        },
    }
}

/// Writes the tree in pre-order: bit 1 for a branch, before its subtrees;
/// bit 0 and the symbol for a leaf.
pub fn write_tree(bw: &mut BitWriter, tree: &Tree)
    requires
        old(bw).wf(),
    ensures
        final(bw).wf(),
        final(bw).bits() == old(bw).bits() + tree.encoding(),
    decreases *tree,
{
    match tree {
        Tree::Leaf { byte, .. } => {
            bw.write_bit(false);
            bw.write_byte(*byte);
            proof {
                assert(old(bw).bits().push(false) + byte_bits(*byte) =~= old(bw).bits()
                    + tree.encoding());
            }
        },
        Tree::Branch { left, right, .. } => {
            bw.write_bit(true);
            write_tree(bw, left);
            write_tree(bw, right);
            proof {
                assert(old(bw).bits().push(true) + left.encoding() + right.encoding() =~= old(bw).bits() + tree.encoding());
            }
        },
    }
}

/// Reads a symbol and makes it a leaf of weight 0; `None` where fewer than
/// eight bits are left.
pub fn read_leaf(br: &mut BitReader) -> (res: Option<Tree>)
    ensures
        reader_bits(*old(br)).len() >= 8 ==> res == Some(
            Tree::Leaf { value: 0, byte: byte_of(reader_bits(*old(br)).take(8)) },
        ) && reader_bits(*final(br)) == reader_bits(*old(br)).skip(8),
        reader_bits(*old(br)).len() < 8 ==> res.is_none(),
{
    match next_byte(br) {
        Some(byte) => Some(Tree::Leaf { value: 0, byte }),
        None => None,
    }
}

/// Reads the tree that the bits begin with; `None` where they end before
/// the tree does. After a tree the reader stands behind its last bit.
pub fn read_tree(br: &mut BitReader) -> (res: Option<Tree>)
    ensures
        match parse_tree(reader_bits(*old(br))) {
            Some((tree, n)) => res == Some(tree) && 0 < n <= reader_bits(*old(br)).len() && reader_bits(
                *final(br),
            ) == reader_bits(*old(br)).skip(n as int),
            None => res.is_none(),
        },
    decreases reader_bits(*old(br)).len(),
{
    let ghost bits = reader_bits(*br);
    match next_bit(br) {
        None => None,
        Some(true) => {
            match read_tree(br) {
                None => None,
                Some(l) => {
                    let ghost n = parse_tree(bits.skip(1)).unwrap().1;
                    proof {
                        assert(bits.skip(1).skip(n as int) =~= bits.skip(1 + n));
                    }
                    match read_tree(br) {
                        None => None,
                        Some(r) => {
                            let ghost m = parse_tree(bits.skip(1 + n)).unwrap().1;
                            proof {
                                assert(bits.skip(1 + n).skip(m as int) =~= bits.skip(1 + n + m));
                            }
                            Some(Tree::Branch { value: 0, left: Box::new(l), right: Box::new(r) })
                        },
                    }
                },
            }
        },
        Some(false) => {
            proof {
                if bits.len() >= 9 {
                    assert(bits.skip(1).take(8) =~= bits.subrange(1, 9));
                    assert(bits.skip(1).skip(8) =~= bits.skip(9));
                }
            }
            read_leaf(br)
        },
    }
}

/// Decodes the next `bits_to_read` bits by walking the tree: a leaf gives
/// its symbol and the walk starts again at the root. Fails where fewer bits
/// are left.
pub fn extract(br: &mut BitReader, tree: &Tree, bits_to_read: u128) -> (res: Result<Vec<u8>, Error>)
    ensures
        bits_to_read <= reader_bits(*old(br)).len() ==> res.is_ok() && res.unwrap()@ == decode(
            *tree,
            reader_bits(*old(br)).take(bits_to_read as int),
        ) && reader_bits(*final(br)) == reader_bits(*old(br)).skip(bits_to_read as int),
        bits_to_read > reader_bits(*old(br)).len() ==> res == Err::<Vec<u8>, Error>(
            Error::MalformedFile,
        ),
{
    let ghost start = reader_bits(*br);
    let ghost all = start.take(bits_to_read as int);
    let mut pointer: &Tree = tree;
    let mut out: Vec<u8> = Vec::new();
    let mut i: u128 = 0;
    proof {
        assert(start.skip(0) =~= start);
        assert(all.skip(0) =~= all);
    }
    while i < bits_to_read
        invariant
            i <= bits_to_read,
            i <= start.len(),
            start == reader_bits(*old(br)),
            all == start.take(bits_to_read as int),
            reader_bits(*br) == start.skip(i as int),
            bits_to_read <= start.len() ==> out@ + decode_from(*tree, *pointer, all.skip(i as int))
                == decode(*tree, all),
        decreases bits_to_read - i,
    {
        let bit = match next_bit(br) {
            Some(bit) => bit,
            None => {
                proof {
                    assert(start.skip(i as int).len() == start.len() - i);
                }
                return Err(Error::MalformedFile);
            },
        };
        proof {
            assert(start.skip(i as int).len() == start.len() - i);
        }
        let ghost before = *pointer;
        match pointer {
            Tree::Branch { left, right, .. } => {
                if bit {
                    pointer = &**right;
                } else {
                    pointer = &**left;
                }
            },
            Tree::Leaf { .. } => {},
        }
        proof {
            assert(start.skip(i as int).skip(1) =~= start.skip(i + 1));
            assert(*pointer == before.step(bit));
            if bits_to_read <= start.len() {
                assert(all.skip(i as int)[0] == bit);
                assert(all.skip(i as int).skip(1) =~= all.skip(i + 1));
            }
        }
        let ghost shown = out@;
        match pointer {
            Tree::Leaf { byte, .. } => {
                out.push(*byte);
                pointer = tree;
                proof {
                    if bits_to_read <= start.len() {
                        assert(shown + (seq![*byte] + decode_from(*tree, *tree, all.skip(i + 1)))
                            =~= out@ + decode_from(*tree, *tree, all.skip(i + 1)));
                    }
                }
            },
            Tree::Branch { .. } => {},
        }
        i = i + 1;
    }
    proof {
        assert(all.skip(bits_to_read as int) =~= Seq::<bool>::empty());
        assert(out@ + Seq::<u8>::empty() =~= out@);
    }
    Ok(out)
}

/// Writes, for each symbol of `data` in turn, the bits that `table` has
/// for it.
pub fn compress(bw: &mut BitWriter, table: &HashMap<u8, Vec<bool>>, data: &[u8])
    requires
        old(bw).wf(),
        forall|i: int| 0 <= i < data@.len() ==> table@.contains_key(#[trigger] data@[i]),
    ensures
        final(bw).wf(),
        final(bw).bits() == old(bw).bits() + table_payload(table@, data@),
{
    broadcast use vstd::std_specs::hash::group_hash_axioms;

    let mut i: usize = 0;
    proof {
        assert(data@.take(0) =~= Seq::<u8>::empty());
        assert(old(bw).bits() + Seq::<bool>::empty() =~= old(bw).bits());
    }
    while i < data.len()
        invariant
            i <= data@.len(),
            bw.wf(),
            forall|k: int| 0 <= k < data@.len() ==> table@.contains_key(#[trigger] data@[k]),
            bw.bits() == old(bw).bits() + table_payload(table@, data@.take(i as int)),
        decreases data@.len() - i,
    {
        let byte = data[i];
        proof {
            assert(table@.contains_key(data@[i as int]));
        }
        let code = table.get(&byte).unwrap();
        let ghost before = bw.bits();
        let mut j: usize = 0;
        proof {
            assert(code@.take(0) =~= Seq::<bool>::empty());
            assert(before + Seq::<bool>::empty() =~= before);
        }
        while j < code.len()
            invariant
                j <= code@.len(),
                bw.wf(),
                bw.bits() == before + code@.take(j as int),
            decreases code@.len() - j,
        {
            proof {
                assert((before + code@.take(j as int)).push(code@[j as int]) =~= before
                    + code@.take(j + 1));
            }
            bw.write_bit(code[j]);
            j = j + 1;
        }
        proof {
            assert(code@.take(code@.len() as int) =~= code@);
            assert(data@.take(i + 1).drop_last() =~= data@.take(i as int));
            assert(data@.take(i + 1).last() == byte);
            assert(old(bw).bits() + table_payload(table@, data@.take(i as int)) + code@ =~= old(bw).bits() + table_payload(table@, data@.take(i + 1)));
        }
        i = i + 1;
    }
    proof {
        assert(data@.take(data@.len() as int) =~= data@);
    }
}

} // verus!
