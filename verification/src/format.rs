//! The compressed file: the tree, the payload and one last byte that says
//! how many filler bits follow each of the two.

use crate::bits::{
    byte_bits, lemma_byte_of_bits, lemma_pack_unpack, lemma_unpack_pack, pack, padding, unpack,
    zeros,
};
use crate::bitwriter::BitWriter;
use crate::codec::{
    compress, decode, extract, lemma_decode_payload, lemma_parse_encoding, lemma_payload_shape,
    lemma_table_payload, parse_tree, payload, read_tree, write_tree,
};
use crate::error::Error;
use crate::reader::{bytes_left, skip_bits, BitReader};
use crate::tree::Tree;
use crate::{encode, huffman_tree, lemma_huffman_tree_contains};
use vstd::prelude::*;

verus! {

/// The last byte of a file: the filler after the tree in the high four
/// bits, the filler after the payload in the low four.
pub open spec fn meta_byte(pad_tree: nat, pad_data: nat) -> u8 {
    ((pad_tree as u8) << 4u8) | (pad_data as u8)
}

/// The bits of the file that `input` compresses to: the tree, zero bits up
/// to a whole byte, the payload, zero bits up to a whole byte, and the byte
/// that holds the two filler counts.
pub open spec fn file_bits(input: Seq<u8>) -> Seq<bool> {
    let tree = huffman_tree(input);
    let head = tree.encoding();
    let body = payload(tree, input);
    head + zeros(padding(head.len())) + body + zeros(padding(body.len())) + byte_bits(
        meta_byte(padding(head.len()), padding(body.len())),
    )
}

/// The file that `input` compresses to.
pub open spec fn compressed(input: Seq<u8>) -> Seq<u8> {
    pack(file_bits(input))
}

/// What a file decompresses to; `None` where it is empty, ends inside its
/// tree or inside the filler behind it, or has less payload than its last
/// byte says there is filler.
pub open spec fn decoded(file: Seq<u8>) -> Option<Seq<u8>> {
    if file.len() == 0 {
        None
    } else {
        let pad_tree = ((file.last() >> 4u8) & 0xFu8) as int;
        let pad_data = (file.last() & 0xFu8) as int;
        let bits = unpack(file);
        match parse_tree(bits) {
            None => None,
            Some((tree, n)) => {
                let start = n + pad_tree;
                if start > bits.len() {
                    None
                } else {
                    let left = (bits.len() - start) / 8;
                    if left < 1 || (left - 1) * 8 < pad_data {
                        None
                    } else {
                        let count = (left - 1) * 8 - pad_data;
                        Some(decode(tree, bits.subrange(start, start + count)))
                    }
                }
            },
        }
    }
}

/// Whole bytes in front do not change how much filler is needed.
pub proof fn lemma_padding_aligned(k: nat, m: nat)
    ensures
        padding(8 * k + m) == padding(m),
{
    assert((8 * k + m) % 8 == m % 8);
}

/// The bits of a file fill whole bytes.
pub proof fn lemma_file_bits_whole(input: Seq<u8>)
    ensures
        file_bits(input).len() % 8 == 0,
        unpack(compressed(input)) == file_bits(input),
{
    let tree = huffman_tree(input);
    let head = tree.encoding();
    let body = payload(tree, input);
    let pad_head = padding(head.len());
    let pad_body = padding(body.len());
    lemma_padding(head.len());
    lemma_padding(body.len());
    lemma_layout(head, zeros(pad_head), body, zeros(pad_body), byte_bits(meta_byte(pad_head, pad_body)));
    lemma_unpack_pack(file_bits(input));
}

/// What a non-empty input compresses to decompresses to that input.
pub proof fn lemma_round_trip(input: Seq<u8>)
    requires
        input.len() > 0,
    ensures
        decoded(compressed(input)) == Some(input),
{
    lemma_file_bits_whole(input);
    lemma_bits_round_trip(input, compressed(input));
}

proof fn lemma_last_byte(file: Seq<u8>, front: Seq<bool>, meta: u8)
    requires
        unpack(file) == front + byte_bits(meta),
    ensures
        file.len() > 0,
        file.last() == meta,
{
    let bits = unpack(file);
    assert(bits.len() == front.len() + 8);
    assert(file.len() > 0);
    assert(8 * (file.len() - 1) == front.len());
    assert(byte_bits(file.last()) =~= byte_bits(meta)) by {
        assert forall|i: int| 0 <= i < 8 implies byte_bits(file.last())[i] == byte_bits(meta)[i] by {
            let k = 8 * (file.len() - 1) + i;
            assert(k / 8 == file.len() - 1);
            assert(k % 8 == i);
            assert(bits[k] == byte_bits(file.last())[i]);
            assert(bits[k] == byte_bits(meta)[i]);
        }
    }
    lemma_byte_of_bits(file.last());
    lemma_byte_of_bits(meta);
}

proof fn lemma_meta_nibbles(pad_tree: nat, pad_data: nat)
    requires
        pad_tree < 8,
        pad_data < 8,
    ensures
        (meta_byte(pad_tree, pad_data) >> 4u8) & 0xFu8 == pad_tree,
        meta_byte(pad_tree, pad_data) & 0xFu8 == pad_data,
{
    let a = pad_tree as u8;
    let b = pad_data as u8;
    assert((((a << 4u8) | b) >> 4u8) & 0xFu8 == a && ((a << 4u8) | b) & 0xFu8 == b) by (bit_vector)
        requires
            a < 8,
            b < 8,
    ;
}

proof fn lemma_decoded_parts(
    file: Seq<u8>,
    tree: Tree,
    head: Seq<bool>,
    pad_head: nat,
    body: Seq<bool>,
    pad_body: nat,
)
    requires
        file.len() > 0,
        pad_head < 8,
        pad_body < 8,
        (file.last() >> 4u8) & 0xFu8 == pad_head,
        file.last() & 0xFu8 == pad_body,
        (head.len() + pad_head) % 8 == 0,
        (body.len() + pad_body) % 8 == 0,
        unpack(file).len() == head.len() + pad_head + body.len() + pad_body + 8,
        parse_tree(unpack(file)) == Some((tree, head.len() as int)),
        unpack(file).subrange((head.len() + pad_head) as int, (head.len() + pad_head + body.len()) as int)
            == body,
    ensures
        decoded(file) == Some(decode(tree, body)),
{
    let bits = unpack(file);
    let start: int = (head.len() + pad_head) as int;
    let left = (bits.len() - start) / 8;
    assert(bits.len() - start == body.len() + pad_body + 8);
    assert(left == (body.len() + pad_body) / 8 + 1);
    assert((left - 1) * 8 == body.len() + pad_body);
}

proof fn lemma_padding(n: nat)
    ensures
        padding(n) < 8,
        (n + padding(n)) % 8 == 0,
{
}

proof fn lemma_layout(a: Seq<bool>, b: Seq<bool>, c: Seq<bool>, d: Seq<bool>, e: Seq<bool>)
    ensures
        a + b + c + d + e == a + (b + c + d + e),
        a + b + c + d + e == (a + b + c + d) + e,
        (a + b + c + d + e).len() == a.len() + b.len() + c.len() + d.len() + e.len(),
        (a + b + c + d + e).subrange(
            (a.len() + b.len()) as int,
            (a.len() + b.len() + c.len()) as int,
        ) == c,
{
    let all = a + b + c + d + e;
    assert(all =~= a + (b + c + d + e));
    assert(all.subrange((a.len() + b.len()) as int, (a.len() + b.len() + c.len()) as int) =~= c);
}

proof fn lemma_decode_built(input: Seq<u8>)
    requires
        input.len() > 0,
    ensures
        decode(huffman_tree(input).shape(), payload(huffman_tree(input), input)) == input,
{
    let tree = huffman_tree(input);
    assert forall|i: int| 0 <= i < input.len() implies tree.shape().contains(
        #[trigger] input[i],
    ) by {
        lemma_huffman_tree_contains(input, i);
        tree.lemma_shape(input[i]);
    }
    lemma_decode_payload(tree.shape(), input);
    lemma_payload_shape(tree, input);
}

/// A file that holds the bits that `input` compresses to decompresses to
/// `input`.
proof fn lemma_bits_round_trip(input: Seq<u8>, file: Seq<u8>)
    requires
        input.len() > 0,
        unpack(file) == file_bits(input),
    ensures
        decoded(file) == Some(input),
{
    let tree = huffman_tree(input);
    let head = tree.encoding();
    let body = payload(tree, input);
    let pad_head = padding(head.len());
    let pad_body = padding(body.len());
    let meta = meta_byte(pad_head, pad_body);
    lemma_padding(head.len());
    lemma_padding(body.len());
    lemma_layout(head, zeros(pad_head), body, zeros(pad_body), byte_bits(meta));
    lemma_last_byte(file, head + zeros(pad_head) + body + zeros(pad_body), meta);
    lemma_meta_nibbles(pad_head, pad_body);
    lemma_parse_encoding(tree, zeros(pad_head) + body + zeros(pad_body) + byte_bits(meta));
    lemma_decoded_parts(file, tree.shape(), head, pad_head, body, pad_body);
    lemma_decode_built(input);
}

/// Compresses `input` into a file. There is no file for an empty input.
#[verifier::rlimit(50)]
pub fn compress_bytes(input: &[u8]) -> (res: Result<Vec<u8>, Error>)
    ensures
        input@.len() == 0 ==> res == Err::<Vec<u8>, Error>(Error::EmptyInput),
        input@.len() > 0 ==> res.is_ok() && res.unwrap()@ == compressed(input@),
{
    if input.len() == 0 {
        return Err(Error::EmptyInput);
    }
    let (table, tree) = encode(input);
    let mut bw = BitWriter::new(Vec::new());
    let ghost head = tree.encoding();
    let ghost body = payload(tree, input@);
    proof {
        assert(unpack(Seq::<u8>::empty()) =~= Seq::<bool>::empty());
        assert(Seq::<bool>::empty() + head =~= head);
    }
    write_tree(&mut bw, &tree);
    let padding_tree = bw.align();
    proof {
        assert forall|i: int| 0 <= i < input@.len() implies tree.contains(#[trigger] input@[i]) by {
            lemma_huffman_tree_contains(input@, i);
        }
        lemma_table_payload(table@, tree, input@);
        lemma_padding_aligned(bw.flushed().len(), body.len());
    }
    compress(&mut bw, &table, input);
    let padding_data = bw.align();
    let last_byte: u8 = (padding_tree << 4u8) | padding_data;
    bw.write_byte(last_byte);
    proof {
        lemma_pack_unpack(bw.flushed());
    }
    Ok(bw.into_inner())
}

/// Decompresses a file: reads the two filler counts from its last byte,
/// the tree from its beginning, passes over the filler behind the tree and
/// decodes the payload up to the filler before the last byte.
pub fn decompress_bytes(file: &[u8]) -> (res: Result<Vec<u8>, Error>)
    ensures
        match decoded(file@) {
            Some(data) => res.is_ok() && res.unwrap()@ == data,
            None => res == Err::<Vec<u8>, Error>(Error::MalformedFile),
        },
{
    if file.len() == 0 {
        return Err(Error::MalformedFile);
    }
    let last: u8 = file[file.len() - 1];
    let padding_tree: u8 = (last >> 4u8) & 0xF;
    let padding_data: u8 = last & 0xF;
    proof {
        assert((last >> 4u8) & 0xFu8 <= 15) by (bit_vector);
    }
    let mut br = BitReader::new(file);
    let ghost bits = unpack(file@);
    let tree = match read_tree(&mut br) {
        Some(tree) => tree,
        None => {
            return Err(Error::MalformedFile);
        },
    };
    let ghost n = parse_tree(bits).unwrap().1;
    if !skip_bits(&mut br, padding_tree as usize) {
        return Err(Error::MalformedFile);
    }
    proof {
        assert(bits.skip(n).skip(padding_tree as int) =~= bits.skip(n + padding_tree));
    }
    let left = bytes_left(&mut br);
    if left == 0 {
        return Err(Error::MalformedFile);
    }
    let body_bits: u128 = (left - 1) as u128 * 8;
    if body_bits < padding_data as u128 {
        return Err(Error::MalformedFile);
    }
    let count: u128 = body_bits - padding_data as u128;
    proof {
        let start = n + padding_tree;
        assert(bits.skip(start).take(count as int) =~= bits.subrange(start, start + count));
    }
    extract(&mut br, &tree, count)
}

} // verus!
