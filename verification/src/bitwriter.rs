//! A writer that packs single bits into bytes, most significant bit first.

use crate::bits::{
    bit_at, byte_bits, lemma_shift_in, lemma_unpack_push, padding, unpack, zeros,
};
use vstd::prelude::*;

verus! {

/// Packs bits into an in-memory byte sink. Up to seven bits wait in a
/// partial byte until the eighth completes it.
pub struct BitWriter {
    byte: u8,
    shift: usize,
    writer: Vec<u8>,
}

impl BitWriter {
    /// The partial byte holds fewer than eight bits.
    pub closed spec fn wf(&self) -> bool {
        self.shift < 8
    }

    /// The bytes completed so far, the sink's earlier content included.
    pub closed spec fn flushed(&self) -> Seq<u8> {
        self.writer@
    }

    /// The bits that wait for their byte to be completed, oldest first.
    pub closed spec fn pending(&self) -> Seq<bool> {
        Seq::new(
            self.shift as nat,
            |i: int| (self.byte >> ((self.shift - 1 - i) as u8)) & 1u8 == 1u8,
        )
    }

    /// Everything written so far, as one bit sequence.
    pub open spec fn bits(&self) -> Seq<bool> {
        unpack(self.flushed()) + self.pending()
    }

    /// A writer that appends to `writer`.
    pub fn new(writer: Vec<u8>) -> (bw: BitWriter)
        ensures
            bw.wf(),
            bw.flushed() == writer@,
            bw.bits() == unpack(writer@),
    {
        let bw = BitWriter { byte: 0, shift: 0, writer };
        proof {
            assert(bw.bits() =~= unpack(writer@));
        }
        bw
    }

    /// Appends one bit; the eighth bit of a byte sends the byte to the sink.
    pub fn write_bit(&mut self, is_true: bool)
        requires
            old(self).wf(),
        ensures
            final(self).wf(),
            final(self).bits() == old(self).bits().push(is_true),
            final(self).pending().len() == (old(self).pending().len() + 1) % 8,
            final(self).flushed().len() == old(self).flushed().len() + (if old(self).pending().len()
                == 7 {
                1int
            } else {
                0int
            }),
    {
        let ghost old_self = *self;
        let x: u8 = if is_true { 1 } else { 0 };
        let nb: u8 = (self.byte << 1u8) | x;
        let ns: usize = self.shift + 1;
        proof {
            assert forall|i: int| 0 <= i < ns implies ((nb >> ((ns - 1 - i) as u8)) & 1u8 == 1u8)
                == old_self.pending().push(is_true)[i] by {
                if i < ns - 1 {
                    lemma_shift_in(old_self.byte, x, (ns - 2 - i) as u8, (ns - 1 - i) as u8);
                } else {
                    lemma_shift_in(old_self.byte, x, 0, 1);
                }
            }
        }
        if ns == 8 {
            self.writer.push(nb);
            self.byte = 0;
            self.shift = 0;
            proof {
                lemma_unpack_push(old_self.writer@, nb);
                assert(byte_bits(nb) =~= old_self.pending().push(is_true));
                assert(self.pending() =~= Seq::<bool>::empty());
                assert(self.bits() =~= old_self.bits().push(is_true));
            }
        } else {
            self.byte = nb;
            self.shift = ns;
            proof {
                assert(self.pending() =~= old_self.pending().push(is_true));
                assert(self.bits() =~= old_self.bits().push(is_true));
            }
        }
    }

    /// Appends the eight bits of `byte`, most significant first.
    pub fn write_byte(&mut self, byte: u8)
        requires
            old(self).wf(),
        ensures
            final(self).wf(),
            final(self).bits() == old(self).bits() + byte_bits(byte),
            old(self).bits() == unpack(old(self).flushed()) ==> final(self).bits() == unpack(
                final(self).flushed(),
            ),
    {
        let ghost start = *self;
        let mut n: u8 = 0;
        while n < 8
            invariant
                n <= 8,
                self.wf(),
                start.wf(),
                self.bits() == start.bits() + byte_bits(byte).take(n as int),
                self.pending().len() == (start.pending().len() + n) % 8,
                self.flushed().len() == start.flushed().len() + (if start.pending().len() + n
                    >= 8 {
                    1int
                } else {
                    0int
                }),
            decreases 8 - n,
        {
            let t: u8 = byte >> (7 - n);
            let bit: bool = t & 1 != 0;
            proof {
                assert(bit == bit_at(byte, n as int)) by {
                    assert(t & 1u8 == 1u8 || t & 1u8 == 0u8) by (bit_vector);
                }
                assert(byte_bits(byte).take(n as int).push(bit) =~= byte_bits(byte).take(n + 1));
            }
            self.write_bit(bit);
            n = n + 1;
        }
        proof {
            assert(byte_bits(byte).take(8) =~= byte_bits(byte));
            if start.bits() == unpack(start.flushed()) {
                assert(start.pending().len() == 0);
                assert(self.pending() =~= Seq::<bool>::empty());
                assert(self.bits() =~= unpack(self.flushed()));
            }
        }
    }

    /// Fills the partial byte with zero bits and sends it to the sink;
    /// returns the number of zero bits written, which is 0 on a byte boundary.
    pub fn align(&mut self) -> (filled: u8)
        requires
            old(self).wf(),
        ensures
            final(self).wf(),
            filled as nat == padding(old(self).bits().len()),
            filled < 8,
            final(self).bits() == old(self).bits() + zeros(filled as nat),
            final(self).bits() == unpack(final(self).flushed()),
    {
        let ghost start = *self;
        let mut filled: u8 = 0;
        proof {
            assert(start.bits() + zeros(0) =~= start.bits());
        }
        while self.shift != 0
            invariant
                self.wf(),
                filled < 8,
                self.bits() == start.bits() + zeros(filled as nat),
                self.pending().len() == (start.pending().len() + filled) % 8,
                start.pending().len() < 8,
                filled > 0 ==> 1 <= start.pending().len() && start.pending().len() + filled <= 8,
                filled == 0 ==> self.pending().len() == start.pending().len(),
            decreases (8 - self.pending().len()) % 8,
        {
            proof {
                assert(zeros(filled as nat).push(false) =~= zeros((filled + 1) as nat));
                assert((start.bits() + zeros(filled as nat)).push(false) =~= start.bits() + zeros(
                    (filled + 1) as nat,
                ));
            }
            self.write_bit(false);
            filled = filled + 1;
        }
        proof {
            assert(self.pending() =~= Seq::<bool>::empty());
            assert(self.bits() =~= unpack(self.flushed()));
        }
        filled
    }

    /// Gives the sink back. Bits of an incomplete byte are not in it.
    pub fn into_inner(self) -> (out: Vec<u8>)
        ensures
            out@ == self.flushed(),
    {
        self.writer
    }
}

} // verus!
