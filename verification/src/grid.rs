//! The block geometry: where the pixels of each block lie in the flat buffer.
//!
//! The buffer is a row-major grid of pixels, four bytes each. Blocks tile the
//! grid without gaps, `buffer_width / block_width` of them in each row of
//! blocks, and are numbered row by row.

use crate::error::Error;
use vstd::arithmetic::div_mod::lemma_basic_div;
use vstd::arithmetic::div_mod::lemma_div_pos_is_pos;
use vstd::arithmetic::div_mod::lemma_fundamental_div_mod;
use vstd::arithmetic::div_mod::lemma_fundamental_div_mod_converse;
use vstd::arithmetic::div_mod::lemma_mod_pos_bound;
use vstd::arithmetic::div_mod::lemma_small_mod;
use vstd::prelude::*;

verus! {

/// The bytes of one pixel: red, green, blue, alpha.
pub const BYTES_PER_PIXEL: usize = 4;

/// The byte offset of the first pixel of a block.
pub open spec fn block_origin(
    block_index: int,
    blocks_per_row: int,
    block_width: int,
    block_height: int,
    buffer_real_width: int,
) -> int {
    (block_index / blocks_per_row) * buffer_real_width * block_height + (block_index
        % blocks_per_row) * block_width * 4
}

/// The byte offset of a pixel of a block, counted from the block's origin.
pub open spec fn local_offset(local_index: int, block_width: int, buffer_real_width: int) -> int {
    (local_index / block_width) * buffer_real_width + (local_index % block_width) * 4
}

/// The byte offset, in the buffer, of pixel `local_index` of block
/// `block_index`.
pub open spec fn pixel_offset(
    buffer_width: int,
    block_width: int,
    block_height: int,
    block_index: int,
    local_index: int,
) -> int {
    block_origin(
        block_index,
        buffer_width / block_width,
        block_width,
        block_height,
        buffer_width * 4,
    ) + local_offset(local_index, block_width, buffer_width * 4)
}

/// How many blocks a buffer of `buffer_len` bytes holds.
pub open spec fn total_blocks(buffer_len: int, block_width: int, block_height: int) -> int {
    buffer_len / (block_width * block_height * 4)
}

/// The buffer can be tiled: the block has an area, the blocks fill each row of
/// the buffer and the buffer as a whole, and every pixel of every block lies
/// within the buffer.
pub open spec fn geometry_fits(
    buffer_len: int,
    buffer_width: int,
    block_width: int,
    block_height: int,
) -> bool {
    &&& block_width > 0
    &&& block_height > 0
    &&& buffer_width % block_width == 0
    &&& buffer_len % (block_width * block_height * 4) == 0
    &&& buffer_len > 0 ==> buffer_width > 0
    &&& forall|block_index: int, local_index: int|
        0 <= block_index < total_blocks(buffer_len, block_width, block_height) && 0 <= local_index
            < block_width * block_height ==> 0 <= #[trigger] pixel_offset(
            buffer_width,
            block_width,
            block_height,
            block_index,
            local_index,
        ) && pixel_offset(buffer_width, block_width, block_height, block_index, local_index) + 4
            <= buffer_len
}

/// A test for [`geometry_fits`] that looks at no single pixel: besides what is
/// asked of the widths and of the length, a buffer that is not empty must hold
/// whole rows of blocks, unless the blocks are one pixel high.
pub open spec fn tiles_in_whole_rows(
    buffer_len: int,
    buffer_width: int,
    block_width: int,
    block_height: int,
) -> bool {
    &&& block_width > 0
    &&& block_height > 0
    &&& buffer_width % block_width == 0
    &&& buffer_len % (block_width * block_height * 4) == 0
    &&& buffer_len > 0 ==> buffer_width > 0 && (block_height == 1 || total_blocks(
        buffer_len,
        block_width,
        block_height,
    ) % (buffer_width / block_width) == 0)
}

/// The pixel that starts at `offset`.
pub open spec fn pixel_at(buffer: Seq<u8>, offset: int) -> [u8; 4] {
    [buffer[offset], buffer[offset + 1], buffer[offset + 2], buffer[offset + 3]]
}

/// The pixels of one block, row by row.
pub open spec fn block_pixels(
    buffer: Seq<u8>,
    buffer_width: int,
    block_width: int,
    block_height: int,
    block_index: int,
) -> Seq<[u8; 4]> {
    Seq::new(
        (block_width * block_height) as nat,
        |local_index: int|
            pixel_at(
                buffer,
                pixel_offset(buffer_width, block_width, block_height, block_index, local_index),
            ),
    )
}

/// A geometry that was validated against the length of its buffer: every
/// pixel of every block lies within the buffer.
#[derive(Debug, Clone, Copy)]
pub struct Grid {
    buffer_len: usize,
    buffer_width: usize,
    block_width: usize,
    block_height: usize,
    blocks: usize,
}

impl Grid {
    #[verifier::type_invariant]
    spec fn fits(&self) -> bool {
        &&& geometry_fits(
            self.buffer_len as int,
            self.buffer_width as int,
            self.block_width as int,
            self.block_height as int,
        )
        &&& self.blocks == total_blocks(
            self.buffer_len as int,
            self.block_width as int,
            self.block_height as int,
        )
    }

    /// The length of the buffer, in bytes.
    pub closed spec fn spec_buffer_len(&self) -> usize {
        self.buffer_len
    }

    /// The width of the buffer, in pixels.
    pub closed spec fn spec_buffer_width(&self) -> usize {
        self.buffer_width
    }

    /// The width of a block, in pixels.
    pub closed spec fn spec_block_width(&self) -> usize {
        self.block_width
    }

    /// The height of a block, in pixels.
    pub closed spec fn spec_block_height(&self) -> usize {
        self.block_height
    }

    /// How many blocks the buffer holds.
    pub open spec fn spec_blocks(&self) -> int {
        total_blocks(
            self.spec_buffer_len() as int,
            self.spec_block_width() as int,
            self.spec_block_height() as int,
        )
    }

    /// How many blocks lie side by side in the buffer.
    pub open spec fn spec_blocks_per_row(&self) -> int {
        self.spec_buffer_width() as int / self.spec_block_width() as int
    }

    /// How many pixels a block has.
    pub open spec fn spec_block_size(&self) -> int {
        self.spec_block_width() * self.spec_block_height()
    }

    /// The byte offset of pixel `local_index` of block `block_index`.
    pub open spec fn spec_pixel_offset(&self, block_index: int, local_index: int) -> int {
        pixel_offset(
            self.spec_buffer_width() as int,
            self.spec_block_width() as int,
            self.spec_block_height() as int,
            block_index,
            local_index,
        )
    }

    /// The pixels of block `block_index` of `buffer`.
    pub open spec fn spec_block(&self, buffer: Seq<u8>, block_index: int) -> Seq<[u8; 4]> {
        block_pixels(
            buffer,
            self.spec_buffer_width() as int,
            self.spec_block_width() as int,
            self.spec_block_height() as int,
            block_index,
        )
    }

    /// Validates a geometry against a buffer of `buffer_len` bytes.
    ///
    /// The geometry is refused unless the block has an area, the buffer's width
    /// is a multiple of the block's, the buffer's length is a multiple of the
    /// block's byte size, and every pixel of every block lies within the buffer.
    pub fn new(buffer_len: usize, buffer_width: u32, block_width: u32, block_height: u32) -> (result:
        Result<Grid, Error>)
        ensures
            result is Ok <==> geometry_fits(
                buffer_len as int,
                buffer_width as int,
                block_width as int,
                block_height as int,
            ),
            result matches Ok(grid) ==> grid.spec_buffer_len() == buffer_len
                && grid.spec_buffer_width() == buffer_width && grid.spec_block_width()
                == block_width && grid.spec_block_height() == block_height,
            result matches Err(error) ==> error == Error::MalformedGeometry,
    {
        proof {
            lemma_fits_iff_whole_rows(
                buffer_len as int,
                buffer_width as int,
                block_width as int,
                block_height as int,
            );
        }
        if block_width == 0 || block_height == 0 {
            return Err(Error::MalformedGeometry);
        }
        if buffer_width % block_width != 0 {
            return Err(Error::MalformedGeometry);
        }
        let width: usize = block_width as usize;
        let height: usize = block_height as usize;
        let ghost block_bytes: int = width * height * 4;
        proof {
            assert(block_bytes > 0) by (nonlinear_arith)
                requires
                    block_bytes == width * height * 4,
                    width > 0,
                    height > 0,
            ;
        }
        if buffer_len == 0 {
            proof {
                lemma_basic_div(0, block_bytes);
                lemma_small_mod(0, block_bytes as nat);
            }
            return Ok(
                Grid {
                    buffer_len,
                    buffer_width: buffer_width as usize,
                    block_width: width,
                    block_height: height,
                    blocks: 0,
                },
            );
        }
        if buffer_width == 0 {
            return Err(Error::MalformedGeometry);
        }
        let bytes: usize = match width.checked_mul(height) {
            Some(area) => match area.checked_mul(BYTES_PER_PIXEL) {
                Some(bytes) => bytes,
                None => {
                    proof {
                        lemma_small_mod(buffer_len as nat, block_bytes as nat);
                    }
                    return Err(Error::MalformedGeometry);
                },
            },
            None => {
                proof {
                    lemma_small_mod(buffer_len as nat, block_bytes as nat);
                }
                return Err(Error::MalformedGeometry);
            },
        };
        if buffer_len % bytes != 0 {
            return Err(Error::MalformedGeometry);
        }
        let blocks: usize = buffer_len / bytes;
        let per_row: usize = buffer_width as usize / width;
        if height != 1 && blocks % per_row != 0 {
            return Err(Error::MalformedGeometry);
        }
        Ok(
            Grid {
                buffer_len,
                buffer_width: buffer_width as usize,
                block_width: width,
                block_height: height,
                blocks,
            },
        )
    }

    /// The length of the buffer, in bytes.
    #[verifier::when_used_as_spec(spec_buffer_len)]
    pub fn buffer_len(&self) -> (len: usize)
        ensures
            len == self.spec_buffer_len(),
    {
        self.buffer_len
    }

    /// The width of the buffer, in pixels.
    #[verifier::when_used_as_spec(spec_buffer_width)]
    pub fn buffer_width(&self) -> (width: usize)
        ensures
            width == self.spec_buffer_width(),
    {
        self.buffer_width
    }

    /// The width of a block, in pixels.
    #[verifier::when_used_as_spec(spec_block_width)]
    pub fn block_width(&self) -> (width: usize)
        ensures
            width == self.spec_block_width(),
    {
        self.block_width
    }

    /// The height of a block, in pixels.
    #[verifier::when_used_as_spec(spec_block_height)]
    pub fn block_height(&self) -> (height: usize)
        ensures
            height == self.spec_block_height(),
    {
        self.block_height
    }

    /// How many blocks the buffer holds: its length by the byte size of a block.
    pub fn blocks(&self) -> (count: usize)
        ensures
            count == self.spec_blocks(),
            count * 4 <= self.spec_buffer_len(),
    {
        proof {
            use_type_invariant(self);
            let block_bytes = self.block_width * self.block_height * 4;
            assert(block_bytes >= 4) by (nonlinear_arith)
                requires
                    block_bytes == self.block_width * self.block_height * 4,
                    self.block_width > 0,
                    self.block_height > 0,
            ;
            lemma_fundamental_div_mod(self.buffer_len as int, block_bytes);
            assert(self.blocks * 4 <= self.buffer_len) by (nonlinear_arith)
                requires
                    self.buffer_len == block_bytes * self.blocks,
                    block_bytes >= 4,
                    self.blocks >= 0,
            ;
        }
        self.blocks
    }

    /// The byte offset of the first pixel of block `block_index`.
    pub fn block_origin(&self, block_index: usize) -> (offset: usize)
        requires
            block_index < self.spec_blocks(),
        ensures
            offset == block_origin(
                block_index as int,
                self.spec_blocks_per_row(),
                self.spec_block_width() as int,
                self.spec_block_height() as int,
                self.spec_buffer_width() * 4,
            ),
            offset == self.spec_pixel_offset(block_index as int, 0),
            offset + 4 <= self.spec_buffer_len(),
    {
        proof {
            use_type_invariant(self);
            self.lemma_per_row_positive();
        }
        let per_row: usize = self.buffer_width / self.block_width;
        let block_row: usize = block_index / per_row;
        let block_column: usize = block_index % per_row;
        proof {
            let offset = self.spec_pixel_offset(block_index as int, 0);
            assert(0 <= 0 < self.block_width * self.block_height) by (nonlinear_arith)
                requires
                    self.block_width > 0,
                    self.block_height > 0,
            ;
            assert(0 <= offset && offset + 4 <= self.buffer_len);
            lemma_offset_by_row_and_column(
                self.buffer_width as int,
                self.block_width as int,
                self.block_height as int,
                block_index as int,
                0,
            );
            lemma_basic_div(0, self.block_width as int);
            lemma_small_mod(0, self.block_width as nat);
            assert(offset == 4 * (block_row * self.block_height * self.buffer_width + block_column
                * self.block_width));
            assert(0 <= block_row * self.block_height <= block_row * self.block_height
                * self.buffer_width && 0 <= block_column * self.block_width) by (nonlinear_arith)
                requires
                    self.buffer_width > 0,
                    self.block_height > 0,
            ;
            assert(offset == block_origin(
                block_index as int,
                per_row as int,
                self.block_width as int,
                self.block_height as int,
                self.buffer_width * 4,
            )) by (nonlinear_arith)
                requires
                    offset == 4 * (block_row * self.block_height * self.buffer_width + block_column
                        * self.block_width),
                    block_row == block_index as int / per_row as int,
                    block_column == block_index as int % per_row as int,
            ;
        }
        let rows_above: usize = block_row * self.block_height;
        let pixels_above: usize = rows_above * self.buffer_width;
        let pixels_left: usize = block_column * self.block_width;
        (pixels_above + pixels_left) * BYTES_PER_PIXEL
    }

    /// The byte offset of pixel `local_index` of a block, counted from the
    /// block's origin.
    pub fn local_offset(&self, local_index: usize) -> (offset: usize)
        requires
            self.spec_blocks() > 0,
            local_index < self.spec_block_size(),
        ensures
            offset == local_offset(
                local_index as int,
                self.spec_block_width() as int,
                self.spec_buffer_width() * 4,
            ),
            offset == self.spec_pixel_offset(0, local_index as int),
    {
        proof {
            use_type_invariant(self);
            self.lemma_per_row_positive();
        }
        let row: usize = local_index / self.block_width;
        let column: usize = local_index % self.block_width;
        proof {
            let per_row = self.buffer_width as int / self.block_width as int;
            let offset = self.spec_pixel_offset(0, local_index as int);
            assert(0 <= offset && offset + 4 <= self.buffer_len);
            lemma_offset_by_row_and_column(
                self.buffer_width as int,
                self.block_width as int,
                self.block_height as int,
                0,
                local_index as int,
            );
            lemma_basic_div(0, per_row);
            lemma_small_mod(0, per_row as nat);
            assert(offset == 4 * (row * self.buffer_width + column)) by (nonlinear_arith)
                requires
                    offset == 4 * (((0int / per_row) * self.block_height + row) * self.buffer_width
                        + (0int % per_row) * self.block_width + column),
                    0int / per_row == 0,
                    0int % per_row == 0,
            ;
            assert(0 <= row * self.buffer_width) by (nonlinear_arith);
            assert(offset == local_offset(
                local_index as int,
                self.block_width as int,
                self.buffer_width * 4,
            )) by (nonlinear_arith)
                requires
                    offset == 4 * (row * self.buffer_width + column),
                    row == local_index as int / self.block_width as int,
                    column == local_index as int % self.block_width as int,
            ;
        }
        (row * self.buffer_width + column) * BYTES_PER_PIXEL
    }

    /// Collects the pixels of block `block_index`, row by row.
    pub fn gather(&self, buffer: &[u8], block_index: usize) -> (block: Vec<[u8; 4]>)
        requires
            buffer@.len() == self.spec_buffer_len(),
            block_index < self.spec_blocks(),
        ensures
            block@ == self.spec_block(buffer@, block_index as int),
            block@.len() == self.spec_block_width() * self.spec_block_height(),
    {
        proof {
            use_type_invariant(self);
            let block_bytes = self.block_width * self.block_height * 4;
            assert(block_bytes > 0) by (nonlinear_arith)
                requires
                    block_bytes == self.block_width * self.block_height * 4,
                    self.block_width > 0,
                    self.block_height > 0,
            ;
            lemma_fundamental_div_mod(self.buffer_len as int, block_bytes);
            assert(block_bytes <= self.buffer_len) by (nonlinear_arith)
                requires
                    self.buffer_len == block_bytes * self.blocks,
                    self.blocks > 0,
                    block_bytes > 0,
            ;
        }
        let origin: usize = self.block_origin(block_index);
        let size: usize = self.block_width * self.block_height;
        let mut block: Vec<[u8; 4]> = Vec::with_capacity(size);
        let mut local_index: usize = 0;
        while local_index < size
            invariant
                local_index <= size,
                size == self.block_width * self.block_height,
                buffer@.len() == self.buffer_len,
                block_index < self.blocks,
                self.blocks > 0,
                origin == block_origin(
                    block_index as int,
                    self.spec_blocks_per_row(),
                    self.block_width as int,
                    self.block_height as int,
                    self.buffer_width * 4,
                ),
                block@.len() == local_index,
                forall|i: int|
                    0 <= i < local_index ==> block@[i] == pixel_at(
                        buffer@,
                        self.spec_pixel_offset(block_index as int, i),
                    ),
            decreases size - local_index,
        {
            proof {
                use_type_invariant(self);
                let offset = self.spec_pixel_offset(block_index as int, local_index as int);
                assert(0 <= offset && offset + 4 <= self.buffer_len);
                lemma_local_offset_not_negative(
                    local_index as int,
                    self.block_width as int,
                    self.buffer_width as int,
                );
            }
            let position: usize = origin + self.local_offset(local_index);
            block.push(
                [
                    buffer[position],
                    buffer[position + 1],
                    buffer[position + 2],
                    buffer[position + 3],
                ],
            );
            local_index += 1;
        }
        assert(block@ =~= self.spec_block(buffer@, block_index as int));
        block
    }

    /// A buffer that holds a block has a row that holds a block.
    proof fn lemma_per_row_positive(&self)
        requires
            self.fits(),
            self.blocks > 0,
        ensures
            self.buffer_width as int / self.block_width as int > 0,
            self.buffer_width > 0,
            self.block_width > 0,
            self.block_height > 0,
    {
        let block_bytes = self.block_width * self.block_height * 4;
        let per_row = self.buffer_width as int / self.block_width as int;
        assert(block_bytes > 0) by (nonlinear_arith)
            requires
                block_bytes == self.block_width * self.block_height * 4,
                self.block_width > 0,
                self.block_height > 0,
        ;
        if self.buffer_len == 0 {
            lemma_basic_div(0, block_bytes);
        }
        lemma_fundamental_div_mod(self.buffer_width as int, self.block_width as int);
        assert(per_row > 0) by (nonlinear_arith)
            requires
                self.buffer_width == self.block_width * per_row,
                self.buffer_width > 0,
                self.block_width > 0,
        ;
    }
}

/// A pixel of a block does not lie before the block's origin.
proof fn lemma_local_offset_not_negative(local_index: int, block_width: int, buffer_width: int)
    requires
        0 <= local_index,
        0 < block_width,
        0 <= buffer_width,
    ensures
        0 <= local_offset(local_index, block_width, buffer_width * 4),
{
    lemma_div_pos_is_pos(local_index, block_width);
    lemma_mod_pos_bound(local_index, block_width);
    assert(0 <= (local_index / block_width) * (buffer_width * 4)) by (nonlinear_arith)
        requires
            0 <= local_index / block_width,
            0 <= buffer_width,
    ;
}

/// A pixel offset, written by the pixel's row and column in the buffer.
proof fn lemma_offset_by_row_and_column(
    buffer_width: int,
    block_width: int,
    block_height: int,
    block_index: int,
    local_index: int,
)
    ensures
        pixel_offset(buffer_width, block_width, block_height, block_index, local_index) == 4 * (((
            block_index / (buffer_width / block_width)) * block_height + local_index
            / block_width) * buffer_width + (block_index % (buffer_width / block_width))
            * block_width + local_index % block_width),
{
    let block_row = block_index / (buffer_width / block_width);
    let block_column = block_index % (buffer_width / block_width);
    let row = local_index / block_width;
    let column = local_index % block_width;
    assert(block_row * (buffer_width * 4) * block_height + block_column * block_width * 4 + (row
        * (buffer_width * 4) + column * 4) == 4 * ((block_row * block_height + row) * buffer_width
        + block_column * block_width + column)) by (nonlinear_arith);
}

/// Every pixel of every block lies within the buffer exactly when the buffer
/// holds whole rows of blocks or the blocks are one pixel high.
pub proof fn lemma_fits_iff_whole_rows(
    buffer_len: int,
    buffer_width: int,
    block_width: int,
    block_height: int,
)
    requires
        0 <= buffer_len,
        0 <= buffer_width,
    ensures
        geometry_fits(buffer_len, buffer_width, block_width, block_height) <==> tiles_in_whole_rows(
            buffer_len,
            buffer_width,
            block_width,
            block_height,
        ),
{
    let block_bytes = block_width * block_height * 4;
    let blocks = total_blocks(buffer_len, block_width, block_height);
    if block_width > 0 && block_height > 0 && buffer_width % block_width == 0 && buffer_len
        % block_bytes == 0 {
        assert(block_bytes > 0) by (nonlinear_arith)
            requires
                block_bytes == block_width * block_height * 4,
                block_width > 0,
                block_height > 0,
        ;
        if buffer_len == 0 {
            lemma_basic_div(0, block_bytes);
        } else if buffer_width > 0 {
            lemma_fundamental_div_mod(buffer_len, block_bytes);
            assert(blocks > 0) by (nonlinear_arith)
                requires
                    buffer_len == block_bytes * blocks,
                    buffer_len > 0,
                    block_bytes > 0,
            ;
            if block_height == 1 || blocks % (buffer_width / block_width) == 0 {
                assert forall|block_index: int, local_index: int|
                    0 <= block_index < blocks && 0 <= local_index < block_width
                        * block_height implies 0 <= #[trigger] pixel_offset(
                    buffer_width,
                    block_width,
                    block_height,
                    block_index,
                    local_index,
                ) && pixel_offset(
                    buffer_width,
                    block_width,
                    block_height,
                    block_index,
                    local_index,
                ) + 4 <= buffer_len by {
                    lemma_whole_rows_fit(
                        buffer_len,
                        buffer_width,
                        block_width,
                        block_height,
                        block_index,
                        local_index,
                    );
                }
            } else {
                lemma_partial_row_overruns(buffer_len, buffer_width, block_width, block_height);
            }
        }
    }
}

/// Where the buffer holds whole rows of blocks, or the blocks are one pixel
/// high, every pixel of every block lies within the buffer.
proof fn lemma_whole_rows_fit(
    buffer_len: int,
    buffer_width: int,
    block_width: int,
    block_height: int,
    block_index: int,
    local_index: int,
)
    requires
        block_width > 0,
        block_height > 0,
        buffer_width > 0,
        buffer_width % block_width == 0,
        0 <= buffer_len,
        buffer_len % (block_width * block_height * 4) == 0,
        total_blocks(buffer_len, block_width, block_height) % (buffer_width / block_width) == 0
            || block_height == 1,
        0 <= block_index < total_blocks(buffer_len, block_width, block_height),
        0 <= local_index < block_width * block_height,
    ensures
        0 <= pixel_offset(buffer_width, block_width, block_height, block_index, local_index),
        pixel_offset(buffer_width, block_width, block_height, block_index, local_index) + 4
            <= buffer_len,
{
    let block_bytes = block_width * block_height * 4;
    let blocks = buffer_len / block_bytes;
    let per_row = buffer_width / block_width;
    let block_row = block_index / per_row;
    let block_column = block_index % per_row;
    let row = local_index / block_width;
    let column = local_index % block_width;
    let pixel = (block_row * block_height + row) * buffer_width + block_column * block_width
        + column;

    assert(block_bytes > 0) by (nonlinear_arith)
        requires
            block_bytes == block_width * block_height * 4,
            block_width > 0,
            block_height > 0,
    ;
    lemma_fundamental_div_mod(buffer_width, block_width);
    lemma_fundamental_div_mod(buffer_len, block_bytes);
    assert(per_row > 0) by (nonlinear_arith)
        requires
            buffer_width == block_width * per_row,
            buffer_width > 0,
            block_width > 0,
    ;
    lemma_fundamental_div_mod(block_index, per_row);
    lemma_mod_pos_bound(block_index, per_row);
    lemma_div_pos_is_pos(block_index, per_row);
    lemma_fundamental_div_mod(local_index, block_width);
    lemma_mod_pos_bound(local_index, block_width);
    lemma_div_pos_is_pos(local_index, block_width);
    assert(row < block_height) by (nonlinear_arith)
        requires
            local_index == block_width * row + column,
            0 <= column,
            local_index < block_width * block_height,
            block_width > 0,
    ;
    lemma_offset_by_row_and_column(
        buffer_width,
        block_width,
        block_height,
        block_index,
        local_index,
    );
    assert(0 <= pixel) by (nonlinear_arith)
        requires
            pixel == (block_row * block_height + row) * buffer_width + block_column * block_width
                + column,
            0 <= block_row,
            0 <= row,
            0 <= block_column,
            0 <= column,
            0 < block_height,
            0 < buffer_width,
            0 < block_width,
    ;
    if block_height == 1 {
        assert(row == 0);
        assert(pixel + 1 <= blocks * block_width) by (nonlinear_arith)
            requires
                pixel == (block_row * block_height + row) * buffer_width + block_column
                    * block_width + column,
                block_height == 1,
                row == 0,
                buffer_width == block_width * per_row,
                block_index == per_row * block_row + block_column,
                block_index + 1 <= blocks,
                0 <= column < block_width,
        ;
        assert(buffer_len == 4 * (blocks * block_width)) by (nonlinear_arith)
            requires
                buffer_len == block_bytes * blocks,
                block_bytes == block_width * block_height * 4,
                block_height == 1,
        ;
    } else {
        let block_rows = blocks / per_row;
        lemma_fundamental_div_mod(blocks, per_row);
        assert(block_row < block_rows) by (nonlinear_arith)
            requires
                blocks == per_row * block_rows,
                block_index == per_row * block_row + block_column,
                0 <= block_column,
                block_index < blocks,
                per_row > 0,
        ;
        assert(pixel + 1 <= block_rows * block_height * buffer_width) by (nonlinear_arith)
            requires
                pixel == (block_row * block_height + row) * buffer_width + block_column
                    * block_width + column,
                block_row + 1 <= block_rows,
                0 <= row < block_height,
                0 <= block_column < per_row,
                0 <= column < block_width,
                buffer_width == block_width * per_row,
                0 <= block_row,
                0 < buffer_width,
        ;
        assert(buffer_len == 4 * (block_rows * block_height * buffer_width))
            by (nonlinear_arith)
            requires
                buffer_len == block_bytes * blocks,
                block_bytes == block_width * block_height * 4,
                blocks == per_row * block_rows,
                buffer_width == block_width * per_row,
        ;
    }
}

/// Where the blocks are more than one pixel high and the last row of blocks
/// is not full, the last pixel of the last block lies beyond the buffer.
proof fn lemma_partial_row_overruns(
    buffer_len: int,
    buffer_width: int,
    block_width: int,
    block_height: int,
)
    requires
        block_width > 0,
        block_height > 1,
        buffer_width > 0,
        buffer_width % block_width == 0,
        0 <= buffer_len,
        buffer_len % (block_width * block_height * 4) == 0,
        total_blocks(buffer_len, block_width, block_height) > 0,
        total_blocks(buffer_len, block_width, block_height) % (buffer_width / block_width) != 0,
    ensures
        pixel_offset(
            buffer_width,
            block_width,
            block_height,
            total_blocks(buffer_len, block_width, block_height) - 1,
            block_width * block_height - 1,
        ) + 4 > buffer_len,
        0 <= block_width * block_height - 1 < block_width * block_height,
{
    let block_bytes = block_width * block_height * 4;
    let blocks = buffer_len / block_bytes;
    let per_row = buffer_width / block_width;
    let block_index = blocks - 1;
    let local_index = block_width * block_height - 1;
    let block_rows = blocks / per_row;
    let rest = blocks % per_row;

    assert(block_bytes > 0 && local_index >= 0) by (nonlinear_arith)
        requires
            block_bytes == block_width * block_height * 4,
            local_index == block_width * block_height - 1,
            block_width > 0,
            block_height > 1,
    ;
    lemma_fundamental_div_mod(buffer_width, block_width);
    lemma_fundamental_div_mod(buffer_len, block_bytes);
    assert(per_row > 0) by (nonlinear_arith)
        requires
            buffer_width == block_width * per_row,
            buffer_width > 0,
            block_width > 0,
    ;
    lemma_fundamental_div_mod(blocks, per_row);
    lemma_mod_pos_bound(blocks, per_row);
    assert(block_index == block_rows * per_row + (rest - 1)) by (nonlinear_arith)
        requires
            blocks == per_row * block_rows + rest,
            block_index == blocks - 1,
    ;
    lemma_fundamental_div_mod_converse(block_index, per_row, block_rows, rest - 1);
    assert(local_index == (block_height - 1) * block_width + (block_width - 1))
        by (nonlinear_arith)
        requires
            local_index == block_width * block_height - 1,
    ;
    lemma_fundamental_div_mod_converse(
        local_index,
        block_width,
        block_height - 1,
        block_width - 1,
    );
    lemma_offset_by_row_and_column(
        buffer_width,
        block_width,
        block_height,
        block_index,
        local_index,
    );
    let pixel = (block_rows * block_height + (block_height - 1)) * buffer_width + (rest - 1)
        * block_width + (block_width - 1);
    assert(pixel + 1 > blocks * block_width * block_height) by (nonlinear_arith)
        requires
            pixel == (block_rows * block_height + (block_height - 1)) * buffer_width + (rest - 1)
                * block_width + (block_width - 1),
            blocks == per_row * block_rows + rest,
            buffer_width == block_width * per_row,
            0 < rest < per_row,
            block_height > 1,
            block_width > 0,
    ;
    assert(buffer_len == 4 * (blocks * block_width * block_height)) by (nonlinear_arith)
        requires
            buffer_len == block_bytes * blocks,
            block_bytes == block_width * block_height * 4,
    ;
}

} // verus!
