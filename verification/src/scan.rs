//! The scan: one byte per block of the buffer, computed chunk by chunk on a
//! pool of worker threads.
//!
//! The blocks are cut into contiguous chunks of equal size, the last one
//! perhaps shorter. Each chunk is filled by one worker, which writes nowhere
//! else, so the output does not depend on how many workers there are.

use crate::error::Error;
use crate::grid::block_pixels;
use crate::grid::geometry_fits;
use crate::grid::total_blocks;
use crate::grid::Grid;
use crate::host::HostValue;
use crate::palette::into_palette;
use crate::palette::parsed_palette;
use crate::palette::Palette;
use crate::reduce::dominant;
use crate::reduce::reduce_block;
use crate::reduce::TRANSPARENT_PIXEL;
use rayon::iter::IndexedParallelIterator;
use rayon::iter::ParallelIterator;
use rayon::slice::ParallelSliceMut;
use vstd::arithmetic::div_mod::lemma_div_pos_is_pos;
use vstd::arithmetic::div_mod::lemma_fundamental_div_mod;
use vstd::arithmetic::div_mod::lemma_fundamental_div_mod_converse;
use vstd::arithmetic::div_mod::lemma_mod_pos_bound;
use vstd::prelude::*;

verus! {

/// The byte of one block: what its pixels reduce to.
pub open spec fn block_value(
    buffer: Seq<u8>,
    buffer_width: int,
    block_width: int,
    block_height: int,
    table: Map<(u8, u8, u8), u8>,
    block_index: int,
) -> u8 {
    dominant(block_pixels(buffer, buffer_width, block_width, block_height, block_index), table)
}

/// The outcome of a scan: the bytes of all blocks in order, or the reason why
/// there are none. A malformed palette is reported before a malformed
/// geometry.
pub open spec fn detemplatized(
    buffer: Seq<u8>,
    buffer_width: int,
    block_width: int,
    block_height: int,
    palette: HostValue,
) -> Result<Seq<u8>, Error> {
    match parsed_palette(palette) {
        Err(error) => Err(error),
        Ok(table) => if geometry_fits(buffer.len() as int, buffer_width, block_width, block_height) {
            Ok(
                Seq::new(
                    total_blocks(buffer.len() as int, block_width, block_height) as nat,
                    |block_index: int|
                        block_value(
                            buffer,
                            buffer_width,
                            block_width,
                            block_height,
                            table,
                            block_index,
                        ),
                ),
            )
        } else {
            Err(Error::MalformedGeometry)
        },
    }
}

/// The size of the chunks into which `blocks` blocks are cut for `workers`
/// workers: large enough for the workers to share all blocks, and never zero.
pub open spec fn spec_chunk_size(blocks: int, workers: int) -> int {
    blocks / workers + 1
}

/// The size of the chunks into which `blocks` blocks are cut for `workers`
/// workers.
pub fn chunk_size(blocks: usize, workers: usize) -> (size: usize)
    requires
        workers > 0,
        blocks < usize::MAX,
    ensures
        size == spec_chunk_size(blocks as int, workers as int),
        size > 0,
        size * workers > blocks,
{
    proof {
        lemma_fundamental_div_mod(blocks as int, workers as int);
        lemma_mod_pos_bound(blocks as int, workers as int);
        assert((blocks as int / workers as int + 1) * workers == workers * (blocks as int
            / workers as int) + workers) by (nonlinear_arith);
    }
    blocks / workers + 1
}

/// The position, among all blocks, of block `offset` of chunk `chunk_index`.
pub open spec fn chunk_slot(chunk_index: int, chunk_size: int, offset: int) -> int {
    chunk_index * chunk_size + offset
}

/// The chunks cover the blocks without overlap: every position lies in
/// exactly one chunk, at one offset.
pub proof fn lemma_chunks_partition(position: int, chunk_size: int)
    requires
        0 <= position,
        0 < chunk_size,
    ensures
        0 <= position / chunk_size,
        0 <= position % chunk_size < chunk_size,
        chunk_slot(position / chunk_size, chunk_size, position % chunk_size) == position,
        forall|chunk_index: int, offset: int|
            0 <= offset < chunk_size && #[trigger] chunk_slot(chunk_index, chunk_size, offset)
                == position ==> chunk_index == position / chunk_size && offset == position
                % chunk_size,
{
    lemma_fundamental_div_mod(position, chunk_size);
    lemma_mod_pos_bound(position, chunk_size);
    lemma_div_pos_is_pos(position, chunk_size);
    assert(chunk_size * (position / chunk_size) == (position / chunk_size) * chunk_size)
        by (nonlinear_arith);
    assert forall|chunk_index: int, offset: int|
        0 <= offset < chunk_size && #[trigger] chunk_slot(chunk_index, chunk_size, offset)
            == position implies chunk_index == position / chunk_size && offset == position
        % chunk_size by {
        lemma_fundamental_div_mod_converse(position, chunk_size, chunk_index, offset);
    }
}

/// What the workers share: the buffer, its geometry and the palette, all
/// read-only.
pub struct Scan<'a> {
    buffer: &'a [u8],
    grid: Grid,
    palette: &'a Palette,
    total_blocks: usize,
}

impl<'a> Scan<'a> {
    #[verifier::type_invariant]
    spec fn grid_matches_buffer(&self) -> bool {
        &&& self.buffer@.len() == self.grid.spec_buffer_len()
        &&& self.total_blocks == self.grid.spec_blocks()
        &&& self.total_blocks * 4 <= self.buffer@.len()
    }

    /// The bytes that are scanned.
    pub closed spec fn spec_buffer(&self) -> Seq<u8> {
        self.buffer@
    }

    /// The geometry of the scan.
    pub closed spec fn spec_grid(&self) -> Grid {
        self.grid
    }

    /// The colour table of the scan.
    pub closed spec fn spec_table(&self) -> Map<(u8, u8, u8), u8> {
        self.palette@
    }

    /// The byte of block `block_index`.
    pub open spec fn spec_block_value(&self, block_index: int) -> u8 {
        dominant(self.spec_grid().spec_block(self.spec_buffer(), block_index), self.spec_table())
    }

    /// Puts together a scan of `buffer`; `grid` must have been validated against
    /// the length of this buffer.
    pub fn new(buffer: &'a [u8], grid: Grid, palette: &'a Palette) -> (scan: Scan<'a>)
        requires
            buffer@.len() == grid.spec_buffer_len(),
        ensures
            scan.spec_buffer() == buffer@,
            scan.spec_grid() == grid,
            scan.spec_table() == palette@,
    {
        let total_blocks: usize = grid.blocks();
        Scan { buffer, grid, palette, total_blocks }
    }

    /// How many blocks the scan has: the length of its output.
    pub fn total_blocks(&self) -> (count: usize)
        ensures
            count == self.spec_grid().spec_blocks(),
            count * 4 <= self.spec_buffer().len(),
    {
        proof {
            use_type_invariant(self);
        }
        self.total_blocks
    }

    /// Computes the byte of one block: gathers its pixels and reduces them.
    pub fn block_value(&self, block_index: usize) -> (value: u8)
        requires
            block_index < self.spec_grid().spec_blocks(),
        ensures
            value == self.spec_block_value(block_index as int),
    {
        proof {
            use_type_invariant(self);
        }
        let block = self.grid.gather(self.buffer, block_index);
        reduce_block(&block, self.grid.block_width(), self.grid.block_height(), self.palette)
    }

    /// Fills one chunk of the output: `blocks` is chunk number `chunk_index`
    /// of the chunks of `chunk_size` bytes into which the output is cut.
    pub fn fill_chunk(&self, chunk_index: usize, chunk_size: usize, blocks: &mut [u8])
        requires
            chunk_index * chunk_size + old(blocks)@.len() <= self.spec_grid().spec_blocks(),
        ensures
            final(blocks)@.len() == old(blocks)@.len(),
            forall|offset: int|
                0 <= offset < old(blocks)@.len() ==> #[trigger] final(blocks)@[offset]
                    == self.spec_block_value(
                    chunk_slot(chunk_index as int, chunk_size as int, offset),
                ),
    {
        proof {
            use_type_invariant(self);
        }
        let len: usize = blocks.len();
        let blocks_start: usize = chunk_index * chunk_size;
        let mut i: usize = 0;
        while i < len
            invariant
                i <= len,
                len == blocks@.len(),
                blocks@.len() == old(blocks)@.len(),
                blocks_start == chunk_index * chunk_size,
                blocks_start + len <= self.spec_grid().spec_blocks(),
                blocks_start + len <= usize::MAX,
                forall|offset: int|
                    0 <= offset < i ==> #[trigger] blocks@[offset] == self.spec_block_value(
                        chunk_slot(chunk_index as int, chunk_size as int, offset),
                    ),
            decreases len - i,
        {
            let block_index: usize = blocks_start + i;
            blocks[i] = self.block_value(block_index);
            i += 1;
        }
    }

    /// Hands each chunk of `out` to a worker, which fills it with
    /// [`Scan::fill_chunk`].
    ///
    /// Trusted, of rayon's `par_chunks_mut`, `enumerate` and `for_each`: the
    /// slice is cut into consecutive chunks of `chunk_size` items that do not
    /// overlap, the last one perhaps shorter; the chunks are numbered from
    /// zero in their order; the closure runs once on each numbered chunk, and
    /// the call returns when all have run. So the item at offset `offset` of
    /// chunk `chunk_index` is item `chunk_index * chunk_size + offset` of
    /// `out`, and it holds what `fill_chunk` wrote there. A chunk size of zero
    /// would panic.
    #[verifier::external_body]
    fn fill_in_parallel(&self, out: &mut Vec<u8>, chunk_size: usize)
        requires
            chunk_size > 0,
            old(out)@.len() == self.spec_grid().spec_blocks(),
        ensures
            final(out)@.len() == old(out)@.len(),
            forall|chunk_index: int, offset: int|
                0 <= chunk_index && 0 <= offset < chunk_size && #[trigger] chunk_slot(
                    chunk_index,
                    chunk_size as int,
                    offset,
                ) < old(out)@.len() ==> final(out)@[chunk_slot(
                    chunk_index,
                    chunk_size as int,
                    offset,
                )] == self.spec_block_value(chunk_slot(chunk_index, chunk_size as int, offset)),
    {
        out.par_chunks_mut(chunk_size).enumerate().for_each(
            |(chunk_index, blocks)| self.fill_chunk(chunk_index, chunk_size, blocks),
        );
    }
}

/// How many workers the machine offers.
///
/// Trusted, of `num_cpus::get`: the number of logical processors available to
/// this process, which its documentation promises to be at least one.
#[verifier::external_body]
fn available_workers() -> (count: usize)
    ensures
        count >= 1,
{
    num_cpus::get()
}

/// Scans `pixel_buffer` with the blocks cut into chunks for `workers` workers.
///
/// `pixel_buffer` is a flat RGBA buffer, `buffer_width` pixels wide.
/// `buffer_height` is accepted and plays no part. The output has one byte for
/// each block of `block_width` by `block_height` pixels, row by row. It is the
/// same for every number of workers.
pub fn detemplatize_with_workers(
    pixel_buffer: &[u8],
    buffer_width: u32,
    buffer_height: u32,
    block_width: u32,
    block_height: u32,
    palette: &HostValue,
    workers: usize,
) -> (result: Result<Vec<u8>, Error>)
    requires
        workers > 0,
    ensures
        match detemplatized(
            pixel_buffer@,
            buffer_width as int,
            block_width as int,
            block_height as int,
            *palette,
        ) {
            Ok(output) => result matches Ok(bytes) && bytes@ == output,
            Err(error) => result matches Err(e) && e == error,
        },
        result matches Ok(bytes) ==> bytes@.len() == pixel_buffer@.len() / ((block_width
            * block_height * 4) as nat),
{
    let palette = match into_palette(palette) {
        Ok(palette) => palette,
        Err(error) => {
            return Err(error);
        },
    };
    let grid = match Grid::new(pixel_buffer.len(), buffer_width, block_width, block_height) {
        Ok(grid) => grid,
        Err(error) => {
            return Err(error);
        },
    };
    let _ = buffer_height;
    let scan = Scan::new(pixel_buffer, grid, &palette);
    let total_blocks: usize = scan.total_blocks();
    let mut output: Vec<u8> = vec![TRANSPARENT_PIXEL; total_blocks];
    let size: usize = chunk_size(total_blocks, workers);
    scan.fill_in_parallel(&mut output, size);
    proof {
        assert forall|position: int| 0 <= position < total_blocks implies output@[position]
            == block_value(
            pixel_buffer@,
            buffer_width as int,
            block_width as int,
            block_height as int,
            palette@,
            position,
        ) by {
            lemma_chunks_partition(position, size as int);
            let chunk_index = position / size as int;
            let offset = position % size as int;
            assert(chunk_slot(chunk_index, size as int, offset) == position);
        }
    }
    Ok(output)
}

/// Scans `pixel_buffer` on as many workers as the machine offers.
///
/// The arguments and the output are those of [`detemplatize_with_workers`].
pub fn detemplatize(
    pixel_buffer: &[u8],
    buffer_width: u32,
    buffer_height: u32,
    block_width: u32,
    block_height: u32,
    palette: &HostValue,
) -> (result: Result<Vec<u8>, Error>)
    ensures
        match detemplatized(
            pixel_buffer@,
            buffer_width as int,
            block_width as int,
            block_height as int,
            *palette,
        ) {
            Ok(output) => result matches Ok(bytes) && bytes@ == output,
            Err(error) => result matches Err(e) && e == error,
        },
        result matches Ok(bytes) ==> bytes@.len() == pixel_buffer@.len() / ((block_width
            * block_height * 4) as nat),
{
    let workers: usize = available_workers();
    detemplatize_with_workers(
        pixel_buffer,
        buffer_width,
        buffer_height,
        block_width,
        block_height,
        palette,
        workers,
    )
}

} // verus!
