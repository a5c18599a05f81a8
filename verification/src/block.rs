//! Tiles of the image, the unit of parallel work.
//!
//! A block names a rectangular pixel region by its grid coordinates and keeps
//! the sample bookkeeping for that region: how many samples each of its pixels
//! has accumulated so far and how many samples the next pass adds.  The
//! radiance sums themselves are kept by the caller beside the block; `draw`
//! places already-packed pixels of a block into the full-resolution buffer,
//! clipping at the right and bottom image edges.

use vstd::arithmetic::div_mod::{lemma_fundamental_div_mod, lemma_fundamental_div_mod_converse};
use vstd::prelude::*;

verus! {

/// One tile of the image grid.
#[derive(Clone, Copy)]
pub struct Block {
    /// Horizontal position in the tile grid (not in pixels).
    pub x: usize,
    /// Vertical position in the tile grid (not in pixels).
    pub y: usize,
    /// Edge length of the tile, in pixels.
    pub block_size: usize,
    /// Samples accumulated per pixel so far.
    pub sample: usize,
    /// Samples the next pass adds per pixel.
    pub samples_to_do: usize,
}

impl Block {
    /// The bookkeeping state after one pass of `k` additional samples per pixel.
    pub open spec fn after_pass(self, k: int) -> Block {
        Block { sample: (self.sample + k) as usize, ..self }
    }

    /// The flat index of this block's tile in a grid `blocks_x` tiles across.
    pub open spec fn tile_index(self, blocks_x: int) -> int {
        self.y * blocks_x + self.x
    }

    /// Whether buffer position `i` lies inside this block's pixel rectangle.
    pub open spec fn covers(self, i: int, width: int) -> bool {
        &&& self.x * self.block_size <= i % width < self.x * self.block_size + self.block_size
        &&& self.y * self.block_size <= i / width < self.y * self.block_size + self.block_size
    }

    /// The index into the block's own pixel array that buffer position `i`
    /// shows, for a covered `i`.
    pub open spec fn color_index(self, i: int, width: int) -> int {
        (i / width - self.y * self.block_size) * self.block_size + (i % width - self.x
            * self.block_size)
    }

    /// What `draw` leaves in the buffer: every covered position shows the
    /// block's pixel for it, every other position keeps its old value.
    pub open spec fn drawn(
        self,
        old_buf: Seq<u32>,
        buf: Seq<u32>,
        colors: Seq<u32>,
        width: int,
    ) -> bool {
        &&& buf.len() == old_buf.len()
        &&& forall|i: int|
            0 <= i < buf.len() ==> buf[i] == (if (self.covers(i, width)) {
                colors[self.color_index(i, width)]
            } else {
                old_buf[i]
            })
    }

    /// The buffer during `draw`, finished up to (but not including) the pixel
    /// in row `row` and column `col` of the image, in raster order.
    spec fn drawn_upto(
        self,
        old_buf: Seq<u32>,
        buf: Seq<u32>,
        colors: Seq<u32>,
        width: int,
        row: int,
        col: int,
    ) -> bool {
        &&& buf.len() == old_buf.len()
        &&& forall|i: int|
            0 <= i < buf.len() ==> buf[i] == (if (self.covers(i, width) && (i / width < row || (i
                / width == row && i % width < col))) {
                colors[self.color_index(i, width)]
            } else {
                old_buf[i]
            })
    }

    /// The flat index of this block's tile, as a machine integer.
    pub fn tile_id(&self, blocks_x: usize) -> (r: usize)
        requires
            self.y * blocks_x + self.x <= usize::MAX,
        ensures
            r == self.tile_index(blocks_x as int),
    {
        self.y * blocks_x + self.x
    }

    /// Records that one pass of `samples_to_do` additional samples per pixel
    /// has been accumulated into this block.
    pub fn finish_pass(&mut self)
        requires
            old(self).sample + old(self).samples_to_do <= usize::MAX,
        ensures
            *final(self) == old(self).after_pass(old(self).samples_to_do as int),
    {
        self.sample = self.sample + self.samples_to_do;
    }

    /// Whether this block has reached the total per-pixel sample budget.
    pub fn is_done(&self, budget: usize) -> (r: bool)
        ensures
            r == (self.sample >= budget),
    {
        self.sample >= budget
    }

    /// The global pixel coordinates shown by the `i`-th cell of this block's
    /// pixel array.
    pub fn pixel_coords(&self, i: usize) -> (r: (usize, usize))
        requires
            self.block_size >= 1,
            i < self.block_size * self.block_size,
            self.x * self.block_size + self.block_size <= usize::MAX,
            self.y * self.block_size + self.block_size <= usize::MAX,
        ensures
            r.0 == i as int % self.block_size as int + self.x * self.block_size,
            r.1 == i as int / self.block_size as int + self.y * self.block_size,
    {
        proof {
            lemma_fundamental_div_mod(i as int, self.block_size as int);
            vstd::arithmetic::div_mod::lemma_mod_bound(i as int, self.block_size as int);
            vstd::arithmetic::div_mod::lemma_div_pos_is_pos(i as int, self.block_size as int);
            lemma_row_bound(self.block_size as int, self.block_size as int);
            vstd::arithmetic::div_mod::lemma_div_is_ordered(
                i as int,
                (self.block_size * self.block_size) as int - 1,
                self.block_size as int,
            );
        }
        let px = i % self.block_size + self.x * self.block_size;
        let py = i / self.block_size + self.y * self.block_size;
        (px, py)
    }

    /// Places the packed pixels of this block into the full-resolution
    /// buffer: every buffer position the block covers receives the block's
    /// pixel for it, positions past the right or bottom image edge are
    /// clipped, and every other buffer position keeps its old value.
    pub fn draw(&self, colors: &Vec<u32>, buffer: &mut Vec<u32>, width: usize, height: usize)
        requires
            colors@.len() == self.block_size * self.block_size,
            old(buffer)@.len() == width * height,
            self.x * self.block_size + self.block_size <= usize::MAX,
            self.y * self.block_size + self.block_size <= usize::MAX,
        ensures
            self.drawn(old(buffer)@, final(buffer)@, colors@, width as int),
    {
        let total = buffer.len();
        let n_colors = colors.len();
        assert(width * height == total);
        assert(self.block_size * self.block_size == n_colors);
        let offset_x = self.x * self.block_size;
        let offset_y = self.y * self.block_size;
        let ghost old_buf = buffer@;
        proof {
            if width * height > 0 {
                lemma_row_bound(width as int, height as int);
            }
        }
        let mut local_y: usize = 0;
        while local_y < self.block_size
            invariant
                local_y <= self.block_size,
                offset_x == self.x * self.block_size,
                offset_y == self.y * self.block_size,
                self.x * self.block_size + self.block_size <= usize::MAX,
                self.y * self.block_size + self.block_size <= usize::MAX,
                colors@.len() == self.block_size * self.block_size,
                self.block_size * self.block_size <= usize::MAX,
                old_buf.len() == width * height,
                width * height <= usize::MAX,
                width * height > 0 ==> (width * height - 1) / width as int == height - 1,
                self.drawn_upto(
                    old_buf,
                    buffer@,
                    colors@,
                    width as int,
                    offset_y + local_y,
                    offset_x as int,
                ),
            ensures
                self.drawn_upto(
                    old_buf,
                    buffer@,
                    colors@,
                    width as int,
                    offset_y + local_y,
                    offset_x as int,
                ),
                local_y == self.block_size || offset_y + local_y >= height,
                old_buf.len() == width * height,
                width * height > 0 ==> (width * height - 1) / width as int == height - 1,
            decreases self.block_size - local_y,
        {
            let y = offset_y + local_y;
            if y >= height {
                break;
            }
            let mut local_x: usize = 0;
            while local_x < self.block_size
                invariant
                    local_x <= self.block_size,
                    local_y < self.block_size,
                    y == offset_y + local_y,
                    y < height,
                    offset_x == self.x * self.block_size,
                    offset_y == self.y * self.block_size,
                    self.x * self.block_size + self.block_size <= usize::MAX,
                    colors@.len() == self.block_size * self.block_size,
                    self.block_size * self.block_size <= usize::MAX,
                    old_buf.len() == width * height,
                    width * height <= usize::MAX,
                    self.drawn_upto(
                        old_buf,
                        buffer@,
                        colors@,
                        width as int,
                        y as int,
                        offset_x + local_x,
                    ),
                ensures
                    self.drawn_upto(
                        old_buf,
                        buffer@,
                        colors@,
                        width as int,
                        y as int,
                        offset_x + local_x,
                    ),
                    local_x == self.block_size || offset_x + local_x >= width,
                decreases self.block_size - local_x,
            {
                let x = offset_x + local_x;
                if x >= width {
                    break;
                }
                proof {
                    lemma_grid_index(width as int, height as int, x as int, y as int);
                    lemma_fundamental_div_mod_converse(
                        y * width + x,
                        width as int,
                        y as int,
                        x as int,
                    );
                }
                let idx = y * width + x;
                proof {
                    assert(local_y * self.block_size + local_x < self.block_size
                        * self.block_size) by (nonlinear_arith)
                        requires
                            local_y < self.block_size,
                            local_x < self.block_size,
                    ;
                }
                let color = colors[local_y * self.block_size + local_x];
                buffer.set(idx, color);
                proof {
                    assert forall|i: int|
                        0 <= i < buffer@.len() && i != idx implies !(#[trigger] (i / (width as int))
                        == y && i % (width as int) == offset_x + local_x) by {
                        assert(width > 0) by (nonlinear_arith)
                            requires
                                width * height > i >= 0,
                        ;
                        lemma_fundamental_div_mod(i, width as int);
                    }
                    assert(self.color_index(idx as int, width as int) == local_y * self.block_size
                        + local_x);
                }
                local_x = local_x + 1;
            }
            proof {
                if offset_x + local_x >= width {
                    assert forall|i: int|
                        0 <= i < buffer@.len() && self.covers(i, width as int) && i / (width as int)
                        == y implies i % (width as int) < offset_x + local_x by {
                        assert(width > 0) by (nonlinear_arith)
                            requires
                                width * height > i >= 0,
                        ;
                        lemma_fundamental_div_mod(i, width as int);
                    }
                }
            }
            local_y = local_y + 1;
        }
        proof {
            if offset_y + local_y >= height && old_buf.len() > 0 {
                assert forall|i: int|
                    0 <= i < buffer@.len() && self.covers(i, width as int) implies i / (width as int)
                    < offset_y + local_y by {
                    assert(width > 0) by (nonlinear_arith)
                        requires
                            width * height > i >= 0,
                    ;
                    vstd::arithmetic::div_mod::lemma_div_is_ordered(
                        i,
                        old_buf.len() as int - 1,
                        width as int,
                    );
                }
            }
        }
    }
}

/// Splitting a pass changes nothing: a pass of `k1` additional samples
/// followed by a pass of `k2` leaves a block in the same bookkeeping state as
/// one pass of `k1 + k2` samples.
pub proof fn lemma_pass_split(b: Block, k1: int, k2: int)
    requires
        0 <= k1,
        0 <= k2,
        b.sample + k1 + k2 <= usize::MAX,
    ensures
        b.after_pass(k1).after_pass(k2) == b.after_pass(k1 + k2),
{
}

/// In a buffer of `width * height` pixels, every position sits in a row below
/// `height`.
proof fn lemma_row_bound(width: int, height: int)
    requires
        width >= 1,
        height >= 1,
    ensures
        (width * height - 1) / width == height - 1,
{
    assert(width * height - 1 == (height - 1) * width + (width - 1)) by (nonlinear_arith);
    lemma_fundamental_div_mod_converse(width * height - 1, width, height - 1, width - 1);
}

/// The buffer index of pixel `(x, y)` lies inside the buffer.
pub(crate) proof fn lemma_grid_index(width: int, height: int, x: int, y: int)
    requires
        0 <= x < width,
        0 <= y < height,
    ensures
        0 <= y * width + x < width * height,
{
    assert(0 <= y * width + x < width * height) by (nonlinear_arith)
        requires
            0 <= x < width,
            0 <= y < height,
    ;
}

} // verus!
