//! Reading bits from a byte slice with `bitbit`'s reader. What the reader
//! still has to deliver is modelled as a bit sequence.

use crate::bits::{byte_of, unpack};
use vstd::prelude::*;

verus! {

/// A bit reader over a byte slice. It holds `bitbit::BitReader`, whose
/// generic declaration is bound by traits that the verifier does not know,
/// so the verifier sees nothing inside it.
#[verifier::external_body]
pub struct BitReader<'a> {
    inner: bitbit::BitReader<&'a [u8], bitbit::MSB>,
}

/// The bits that a reader over a byte slice has not delivered yet, in the
/// order in which it will deliver them.
pub uninterp spec fn reader_bits(br: BitReader) -> Seq<bool>;

/// `bitbit::BitReader::new` on a byte slice: the new reader will deliver the
/// bits of `data`, each byte most significant bit first.
#[verifier::external_body]
pub(crate) fn open_reader<'a>(data: &'a [u8]) -> (br: BitReader<'a>)
    ensures
        reader_bits(br) == unpack(data@),
{
    BitReader { inner: bitbit::BitReader::new(data) }
}

/// `bitbit::BitReader::read_bit`: delivers the next bit; at the end of the
/// slice it fails and leaves the reader as it was.
#[verifier::external_body]
pub(crate) fn next_bit(br: &mut BitReader) -> (bit: Option<bool>)
    ensures
        reader_bits(*old(br)).len() > 0 ==> bit == Some(reader_bits(*old(br))[0]) && reader_bits(
            *final(br),
        ) == reader_bits(*old(br)).skip(1),
        reader_bits(*old(br)).len() == 0 ==> bit.is_none() && reader_bits(*final(br))
            == reader_bits(*old(br)),
{
    br.inner.read_bit().ok()
}

/// `bitbit::BitReader::read_byte`: delivers the next eight bits as a byte,
/// first bit most significant. With fewer than eight bits left it fails,
/// and has used up what was left.
#[verifier::external_body]
pub(crate) fn next_byte(br: &mut BitReader) -> (byte: Option<u8>)
    ensures
        reader_bits(*old(br)).len() >= 8 ==> byte == Some(byte_of(reader_bits(*old(br)).take(8)))
            && reader_bits(*final(br)) == reader_bits(*old(br)).skip(8),
        reader_bits(*old(br)).len() < 8 ==> byte.is_none() && reader_bits(*final(br)).len() == 0,
{
    br.inner.read_byte().ok()
}

/// `bitbit::BitReader::read_bits`, the value dropped: passes over the next
/// `n` bits. With fewer than `n` bits left it fails, and has used up what
/// was left.
#[verifier::external_body]
pub(crate) fn skip_bits(br: &mut BitReader, n: usize) -> (done: bool)
    requires
        n <= 32,
    ensures
        reader_bits(*old(br)).len() >= n ==> done && reader_bits(*final(br)) == reader_bits(
            *old(br),
        ).skip(n as int),
        reader_bits(*old(br)).len() < n ==> !done && reader_bits(*final(br)).len() == 0,
{
    br.inner.read_bits(n).is_ok()
}

/// `bitbit::BitReader::get_ref`, and the length of the slice behind it: the
/// number of whole bytes that the reader has not touched yet. The reader
/// keeps at most seven bits of a byte it has begun.
#[verifier::external_body]
pub(crate) fn bytes_left(br: &mut BitReader) -> (left: usize)
    ensures
        left == reader_bits(*old(br)).len() / 8,
        reader_bits(*final(br)) == reader_bits(*old(br)),
{
    br.inner.get_ref().len()
}

impl<'a> BitReader<'a> {
    /// A reader that delivers the bits of `data`, each byte most
    /// significant bit first.
    pub fn new(data: &'a [u8]) -> (br: BitReader<'a>)
        ensures
            reader_bits(br) == unpack(data@),
    {
        open_reader(data)
    }
}

} // verus!
