//! The bits of a byte buffer as a source of cells, the most significant bit
//! of each byte first.

use crate::bit_chunk_iter::bit_at;
use crate::chunk_iter::Source;
use bitvec::order::Msb0;
use bitvec::view::BitView;
use vstd::prelude::*;

verus! {

/// The bits of a buffer, in order.
pub open spec fn bits(data: Seq<u8>) -> Seq<bool> {
    Seq::new(8 * data.len(), |i: int| bit_at(data, i))
}

/// Whether a buffer of `len` bytes is short enough to be viewed as bits: the
/// number of its bits must fit the upper bound of a bit view, an eighth of
/// the range of `usize`.
pub open spec fn viewable(len: int) -> bool {
    8 * len <= usize::MAX / 8
}

/// `view_bits::<Msb0>()` of bitvec on a slice of bytes, and the index of the
/// view: bit `i` of the view is bit `7 - i % 8` of byte `i / 8`. The view
/// panics on a buffer that is too long, and the index beyond the end.
#[verifier::external_body]
fn bit_of_view(data: &[u8], i: usize) -> (b: bool)
    requires
        viewable(data@.len() as int),
        i < 8 * data@.len(),
    ensures
        b == bit_at(data@, i as int),
{
    data.view_bits::<Msb0>()[i]
}

/// A source that hands out the bits of a buffer.
pub struct Bits<'a> {
    data: &'a [u8],
    pos: usize,
}

impl<'a> Bits<'a> {
    pub fn new(data: &'a [u8]) -> (s: Self)
        requires
            viewable(data@.len() as int),
        ensures
            s.wf(),
            s.remaining() == bits(data@),
    {
        let s = Bits { data, pos: 0 };
        assert(bits(data@).skip(0) =~= bits(data@));
        s
    }
}

impl<'a> Source for Bits<'a> {
    type Item = bool;

    closed spec fn wf(&self) -> bool {
        &&& viewable(self.data@.len() as int)
        &&& self.pos <= 8 * self.data@.len()
    }

    closed spec fn remaining(&self) -> Seq<bool> {
        bits(self.data@).skip(self.pos as int)
    }

    fn next(&mut self) -> (r: Option<bool>) {
        if self.pos / 8 < self.data.len() {
            let b = bit_of_view(self.data, self.pos);
            self.pos += 1;
            assert(bits(self.data@).skip(self.pos as int) =~= bits(old(self).data@).skip(
                old(self).pos as int,
            ).drop_first());
            Some(b)
        } else {
            None
        }
    }
}

} // verus!
