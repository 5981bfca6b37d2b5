//! The text form of a run of values: each value followed by a comma.

use vstd::prelude::*;
use vstd::string::StringSliceAdditionalSpecFns;

verus! {

/// Splits the text of a run of values into the texts of the values.
pub struct DataParser {}

/// Where the piece that holds position `k` starts: after the last comma
/// before `k`, or at the start of the text.
pub open spec fn piece_start(b: Seq<u8>, k: int) -> int
    decreases k,
{
    if k <= 0 {
        0
    } else if b[k - 1] == 0x2c {
        k
    } else {
        piece_start(b, k - 1)
    }
}

/// The pieces that the commas among the first `k` bytes end, in order.
pub open spec fn pieces(b: Seq<u8>, k: int) -> Seq<Seq<u8>>
    decreases k,
{
    if k <= 0 {
        Seq::empty()
    } else if b[k - 1] == 0x2c {
        pieces(b, k - 1).push(b.subrange(piece_start(b, k - 1), k - 1))
    } else {
        pieces(b, k - 1)
    }
}

/// The piece that holds a position starts at or before it.
pub proof fn lemma_piece_start_bounds(b: Seq<u8>, k: int)
    requires
        0 <= k,
    ensures
        0 <= piece_start(b, k) <= k,
    decreases k,
{
    if k > 0 && b[k - 1] != 0x2c {
        lemma_piece_start_bounds(b, k - 1);
    }
}

/// The bytes of the pieces.
pub open spec fn piece_views(values: Seq<Vec<u8>>) -> Seq<Seq<u8>> {
    Seq::new(values.len(), |i: int| values[i]@)
}

impl DataParser {
    pub fn new() -> DataParser {
        DataParser {  }
    }

    /// The bytes of every value of the text: the pieces that a comma ends,
    /// in order. What follows the last comma is left out.
    pub fn parse(&mut self, buffer: &str) -> (values: Vec<Vec<u8>>)
        ensures
            piece_views(values@) == pieces(buffer.spec_bytes(), buffer.spec_bytes().len() as int),
    {
        let bytes = buffer.as_bytes();
        let mut values: Vec<Vec<u8>> = Vec::new();
        let mut index: usize = 0;
        let mut i: usize = 0;
        assert(piece_views(values@) =~= pieces(bytes@, 0));
        while i < bytes.len()
            invariant
                i <= bytes@.len(),
                index == piece_start(bytes@, i as int),
                index <= i,
                piece_views(values@) == pieces(bytes@, i as int),
            decreases bytes.len() - i,
        {
            if bytes[i] == 0x2c {
                let mut piece: Vec<u8> = Vec::new();
                let mut j: usize = index;
                while j < i
                    invariant
                        index <= j <= i < bytes@.len(),
                        piece@ == bytes@.subrange(index as int, j as int),
                    decreases i - j,
                {
                    piece.push(bytes[j]);
                    assert(piece@ =~= bytes@.subrange(index as int, j as int + 1));
                    j += 1;
                }
                let ghost before = piece_views(values@);
                values.push(piece);
                assert(piece_views(values@) =~= before.push(piece@));
                index = i + 1;
            }
            i += 1;
        }
        values
    }
}

} // verus!
