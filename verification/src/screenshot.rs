//! Reading rendered pixels back row by row.

use crate::geometry::Size;
use vstd::prelude::*;

verus! {

/// Returns what the rows of a copy from a texture to a buffer are aligned to, in bytes.
///
/// This is `wgpu::COPY_BYTES_PER_ROW_ALIGNMENT`; the contract claims its value.
#[verifier::external_body]
fn row_alignment() -> (alignment: u32)
    ensures
        alignment == 256,
{
    wgpu::COPY_BYTES_PER_ROW_ALIGNMENT
}

/// The bytes of a row of four-byte pixels, with and without padding, and the extent of the
/// picture.
#[derive(Debug, Clone, Copy, PartialEq, Eq, Structural)]
pub struct BufferDimensions {
    pub width: u32,
    pub height: u32,
    pub unpadded_bytes_per_row: usize,
    pub padded_bytes_per_row: usize,
}

/// The least multiple of `alignment` that is not below `bytes`.
pub open spec fn aligned(bytes: int, alignment: int) -> int {
    alignment * crate::geometry::groups(bytes, alignment)
}

impl BufferDimensions {
    /// Whether a picture of this size can be addressed on this machine.
    pub open spec fn addressable(size: Size) -> bool {
        aligned(4 * size.width, 256) * size.height <= usize::MAX && aligned(4 * size.width, 256)
            <= usize::MAX
    }

    /// Computes the rows that a picture of the given size takes.
    pub fn new(size: Size) -> (dimensions: Self)
        requires
            Self::addressable(size),
        ensures
            dimensions.width == size.width,
            dimensions.height == size.height,
            dimensions.unpadded_bytes_per_row == 4 * size.width,
            dimensions.padded_bytes_per_row == aligned(4 * size.width, 256),
    {
        proof {
            lemma_aligned(4 * size.width);
        }
        let unpadded_bytes_per_row: usize = size.width as usize * 4;
        let alignment: usize = row_alignment() as usize;
        let padding: usize = (alignment - unpadded_bytes_per_row % alignment) % alignment;
        BufferDimensions {
            width: size.width,
            height: size.height,
            unpadded_bytes_per_row,
            padded_bytes_per_row: unpadded_bytes_per_row + padding,
        }
    }

    /// The dimensions are those of a picture that can be addressed.
    pub open spec fn wf(self) -> bool {
        &&& Self::addressable(Size { width: self.width, height: self.height })
        &&& self.unpadded_bytes_per_row == 4 * self.width
        &&& self.padded_bytes_per_row == aligned(4 * self.width, 256)
    }

    /// Returns the bytes of a buffer that holds the padded picture.
    pub fn buffer_size(&self) -> (bytes: usize)
        requires
            self.wf(),
        ensures
            bytes == self.padded_bytes_per_row * self.height,
    {
        self.padded_bytes_per_row * self.height as usize
    }

    /// Returns the bytes of the picture without the padding of its rows.
    pub fn unpad(&self, padded: &[u8]) -> (pixels: Vec<u8>)
        requires
            self.wf(),
            self.width > 0,
            padded@.len() == self.padded_bytes_per_row * self.height,
        ensures
            pixels@.len() == self.unpadded_bytes_per_row * self.height,
            forall|row: int, column: int|
                #![trigger padded@[row * self.padded_bytes_per_row + column]]
                0 <= row < self.height && 0 <= column < self.unpadded_bytes_per_row
                    ==> pixels@[row * self.unpadded_bytes_per_row + column]
                    == padded@[row * self.padded_bytes_per_row + column],
    {
        let ghost wide = self.padded_bytes_per_row as int;
        let ghost narrow = self.unpadded_bytes_per_row as int;
        let ghost rows = self.height as int;
        proof {
            lemma_aligned(4 * self.width);
            assert(narrow <= wide);
        }
        let mut pixels: Vec<u8> = Vec::new();
        let length: usize = padded.len();
        let mut start: usize = 0;
        let ghost mut row: int = 0;
        while start < length
            invariant
                length == padded@.len(),
                self.wf(),
                wide == self.padded_bytes_per_row,
                narrow == self.unpadded_bytes_per_row,
                rows == self.height,
                0 < narrow <= wide,
                padded@.len() == wide * rows,
                0 <= row <= rows,
                start == row * wide,
                pixels@.len() == row * narrow,
                forall|r: int, c: int|
                    #![trigger padded@[r * wide + c]]
                    0 <= r < row && 0 <= c < narrow ==> pixels@[r * narrow + c] == padded@[r * wide
                        + c],
            decreases length - start,
        {
            let ghost before = pixels@;
            proof {
                assert(row < rows) by (nonlinear_arith)
                    requires
                        row * wide < wide * rows,
                        wide > 0,
                ;
                assert((row + 1) * wide <= wide * rows) by (nonlinear_arith)
                    requires
                        row < rows,
                        wide > 0,
                ;
                assert((row + 1) * wide == row * wide + wide) by (nonlinear_arith);
                assert((row + 1) * narrow == row * narrow + narrow) by (nonlinear_arith);
            }
            let mut column: usize = 0;
            while column < self.unpadded_bytes_per_row
                invariant
                    narrow == self.unpadded_bytes_per_row,
                    0 <= column <= narrow <= wide,
                    start == row * wide,
                    length == padded@.len(),
                    start + wide <= length,
                    before.len() == row * narrow,
                    pixels@.len() == before.len() + column,
                    forall|i: int| 0 <= i < before.len() ==> #[trigger] pixels@[i] == before[i],
                    forall|c: int|
                        0 <= c < column ==> #[trigger] pixels@[row * narrow + c] == padded@[start
                            + c],
                decreases narrow - column,
            {
                pixels.push(padded[start + column]);
                column = column + 1;
            }
            proof {
                assert forall|r: int, c: int|
                    #![trigger padded@[r * wide + c]]
                    0 <= r < row + 1 && 0 <= c < narrow implies pixels@[r * narrow + c]
                    == padded@[r * wide + c] by {
                    if r < row {
                        assert(r * narrow + c < row * narrow) by (nonlinear_arith)
                            requires
                                r < row,
                                0 <= c < narrow,
                        ;
                        assert(0 <= r * narrow) by (nonlinear_arith)
                            requires
                                0 <= r,
                                0 < narrow,
                        ;
                        assert(pixels@[r * narrow + c] == before[r * narrow + c]);
                    } else {
                        assert(pixels@[row * narrow + c] == padded@[start + c]);
                    }
                }
                row = row + 1;
            }
            start = start + self.padded_bytes_per_row;
        }
        proof {
            assert(row == rows) by (nonlinear_arith)
                requires
                    row * wide >= wide * rows,
                    row <= rows,
                    wide > 0,
            ;
            assert(row * narrow == narrow * rows) by (nonlinear_arith)
                requires
                    row == rows,
            ;
        }
        pixels
    }
}

proof fn lemma_aligned(bytes: int)
    requires
        bytes >= 0,
    ensures
        bytes <= aligned(bytes, 256) < bytes + 256,
        aligned(bytes, 256) == bytes + (256 - bytes % 256) % 256,
{
}

/// Rows are aligned by adding as few bytes as possible.
pub proof fn aligned_rows_are_the_least_multiples(bytes: int, alignment: int)
    requires
        bytes >= 0,
        alignment > 0,
    ensures
        aligned(bytes, alignment) % alignment == 0,
        bytes <= aligned(bytes, alignment) < bytes + alignment,
{
    let count = crate::geometry::groups(bytes, alignment);
    crate::geometry::groups_are_the_fewest_that_hold(bytes, alignment);
    assert(count * alignment == alignment * count) by (nonlinear_arith);
    assert((count - 1) * alignment == alignment * count - alignment) by (nonlinear_arith);
    vstd::arithmetic::div_mod::lemma_mod_multiples_basic(count, alignment);
}

} // verus!
