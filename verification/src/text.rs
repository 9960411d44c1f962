//! Codes as text, for showing a code table.

use vstd::prelude::*;

verus! {

/// The characters that show a bit sequence: `1` for a set bit, `0` for a
/// clear one.
pub open spec fn bit_chars(bits: Seq<bool>) -> Seq<char> {
    Seq::new(bits.len(), |i: int| if bits[i] { '1' } else { '0' })
}

/// `String::push`: the string grows by the one character at its end.
#[verifier::external_body]
fn push_char(s: &mut String, c: char)
    ensures
        final(s)@ == old(s)@.push(c),
{
    s.push(c)
}

/// Shows a bit sequence as a string of the digits 0 and 1.
pub fn bool_vec_to_string(vec: &[bool]) -> (s: String)
    ensures
        s@ == bit_chars(vec@),
{
    let mut s = String::new();
    let mut i: usize = 0;
    while i < vec.len()
        invariant
            i <= vec@.len(),
            s@ == bit_chars(vec@.take(i as int)),
        decreases vec@.len() - i,
    {
        let c = if vec[i] { '1' } else { '0' };
        push_char(&mut s, c);
        proof {
            assert(s@ =~= bit_chars(vec@.take(i + 1)));
        }
        i = i + 1;
    }
    proof {
        assert(vec@.take(vec@.len() as int) =~= vec@);
    }
    s
}

} // verus!
