//! The progressive scheduler: the pending-tile queue, the completion
//! registry, and the decisions of the driving loop.
//!
//! The driver owns the queue of blocks waiting for their next pass and the
//! registry of tiles not yet finished.  A feeder takes blocks out with `pop`
//! and hands them to workers; the driving loop hands every rendered block
//! back through `handle_finished`, which either requeues it at a uniformly
//! random position (more samples still owed) or retires it and removes its
//! tile from the registry.  A tile is in exactly one place at any time:
//! queued, dispatched, or retired; the registry holds exactly the tiles that
//! are queued or dispatched.

use crate::block::Block;
use crate::registry::Registry;
use vstd::prelude::*;
use vstd::set_lib::set_int_range;

verus! {

/// Relies on `fastrand::usize` over the range `0..n`: the draw lies in the
/// range.  Nothing else holds of a random draw.
#[verifier::external_body]
fn random_below(n: usize) -> (r: usize)
    requires
        n >= 1,
    ensures
        r < n,
{
    fastrand::usize(0..n)
}

/// Relies on `fastrand::shuffle`: it permutes the slice in place by swaps, so
/// the new contents are the old contents as a multiset.  Nothing holds of the
/// order it picks.
#[verifier::external_body]
fn shuffle_blocks(v: &mut Vec<Block>)
    ensures
        final(v)@.to_multiset() == old(v)@.to_multiset(),
{
    fastrand::shuffle(v.as_mut_slice());
}

/// The quotient of `a` by `b`, rounded up.
fn div_ceil(a: usize, b: usize) -> (r: usize)
    requires
        a >= 1,
        b >= 1,
    ensures
        r == (a + b - 1) / b as int,
        r * b >= a,
        (r - 1) * b < a,
        1 <= r <= a,
{
    let len = a;
    let block_size = b;
    let q = len / block_size;
    let rem = len % block_size;
    proof {
        vstd::arithmetic::div_mod::lemma_fundamental_div_mod(len as int, block_size as int);
        vstd::arithmetic::div_mod::lemma_mod_bound(len as int, block_size as int);
        vstd::arithmetic::div_mod::lemma_div_pos_is_pos(len as int, block_size as int);
        assert(q * block_size == block_size * q) by (nonlinear_arith);
        assert(q <= q * block_size) by (nonlinear_arith)
            requires
                q >= 0,
                block_size >= 1,
        ;
        if rem == 0 {
            assert(q >= 1) by (nonlinear_arith)
                requires
                    len >= 1,
                    len == block_size * q,
                    q >= 0,
            ;
            assert((q - 1) * block_size == q * block_size - block_size) by (nonlinear_arith);
            assert(len + block_size - 1 == q * block_size + (block_size - 1));
            vstd::arithmetic::div_mod::lemma_fundamental_div_mod_converse(
                len + block_size - 1,
                block_size as int,
                q as int,
                block_size - 1,
            );
        } else {
            assert((q + 1) * block_size == q * block_size + block_size) by (nonlinear_arith);
            assert(len + block_size - 1 == (q + 1) * block_size + (rem - 1));
            vstd::arithmetic::div_mod::lemma_fundamental_div_mod_converse(
                len + block_size - 1,
                block_size as int,
                q + 1,
                rem - 1,
            );
        }
    }
    if rem != 0 {
        q + 1
    } else {
        q
    }
}

/// How many blocks of edge `block_size` cover a span of `len` pixels: the
/// quotient, rounded up.
pub fn blocks_count(len: usize, block_size: usize) -> (r: usize)
    requires
        len >= 1,
        block_size >= 1,
    ensures
        r == (len + block_size - 1) / block_size as int,
        r * block_size >= len,
        (r - 1) * block_size < len,
        1 <= r <= len,
{
    div_ceil(len, block_size)
}

/// The set of flat tile indices of the blocks of a queue, in a grid
/// `blocks_x` tiles across.
pub open spec fn tiles_of(q: Seq<Block>, blocks_x: int) -> Set<int> {
    Set::new(
        |c: int|
            exists|k: int| 0 <= k < q.len() && (#[trigger] q[k]).tile_index(blocks_x) == c,
    )
}

/// A shuffle of a queue whose block at every position `k` is the tile with
/// flat index `k` keeps every property the scheduler needs: the same blocks
/// are present, tile indices stay pairwise distinct, and every tile of the
/// grid is still queued somewhere.
proof fn lemma_shuffle_grid(a: Seq<Block>, b: Seq<Block>, bx: int)
    requires
        a.to_multiset() == b.to_multiset(),
        forall|k: int| 0 <= k < a.len() ==> (#[trigger] a[k]).tile_index(bx) == k,
    ensures
        b.len() == a.len(),
        forall|k: int| 0 <= k < b.len() ==> a.contains(#[trigger] b[k]),
        forall|k: int| 0 <= k < b.len() ==> 0 <= (#[trigger] b[k]).tile_index(bx) < a.len(),
        forall|k1: int, k2: int|
            0 <= k1 < k2 < b.len() ==> (#[trigger] b[k1]).tile_index(bx) != (
            #[trigger] b[k2]).tile_index(bx),
        tiles_of(b, bx) == set_int_range(0, a.len() as int),
{
    broadcast use vstd::seq_lib::group_to_multiset_ensures;

    assert(b.len() == a.len()) by {
        assert(a.to_multiset().len() == a.len());
        assert(b.to_multiset().len() == b.len());
    }
    assert(a.no_duplicates()) by {
        assert forall|k1: int, k2: int| 0 <= k1 < k2 < a.len() implies a[k1] != a[k2] by {
            assert(a[k1].tile_index(bx) == k1);
            assert(a[k2].tile_index(bx) == k2);
        }
    }
    a.lemma_multiset_has_no_duplicates();
    assert forall|k: int| 0 <= k < b.len() implies a.contains(#[trigger] b[k]) by {
        assert(b.contains(b[k]));
        assert(b.to_multiset().count(b[k]) > 0);
        assert(a.to_multiset().count(b[k]) > 0);
    }
    assert forall|k: int| 0 <= k < b.len() implies 0 <= (#[trigger] b[k]).tile_index(bx)
        < a.len() by {
        let j = choose|j: int| 0 <= j < a.len() && a[j] == b[k];
        assert(a[j].tile_index(bx) == j);
    }
    assert(b.no_duplicates()) by {
        assert forall|x: Block| b.to_multiset().contains(x) implies b.to_multiset().count(x)
            == 1 by {
            assert(a.to_multiset().count(x) > 0);
            assert(a.contains(x));
        }
        b.lemma_multiset_has_no_duplicates_conv();
    }
    assert forall|k1: int, k2: int| 0 <= k1 < k2 < b.len() implies (#[trigger] b[k1]).tile_index(bx)
        != (#[trigger] b[k2]).tile_index(bx) by {
        let j1 = choose|j: int| 0 <= j < a.len() && a[j] == b[k1];
        let j2 = choose|j: int| 0 <= j < a.len() && a[j] == b[k2];
        assert(a[j1].tile_index(bx) == j1);
        assert(a[j2].tile_index(bx) == j2);
        if b[k1].tile_index(bx) == b[k2].tile_index(bx) {
            assert(b[k1] == b[k2]);
            assert(false);
        }
    }
    assert(tiles_of(b, bx) =~= set_int_range(0, a.len() as int)) by {
        assert forall|c: int| 0 <= c < a.len() implies tiles_of(b, bx).contains(c) by {
            assert(a.contains(a[c]));
            assert(a.to_multiset().count(a[c]) > 0);
            assert(b.to_multiset().count(a[c]) > 0);
            assert(b.contains(a[c]));
            let k = choose|k: int| 0 <= k < b.len() && b[k] == a[c];
            assert(b[k].tile_index(bx) == c);
        }
    }
}

/// The scheduler state: the pending queue, the completion registry, the
/// render configuration, and — as ghost state — the tiles currently
/// dispatched to workers.
pub struct Driver {
    /// Blocks waiting for their next pass; the feeder pops from the end.
    pub queue: Vec<Block>,
    /// The tiles that have not yet been retired.
    pub registry: Registry,
    /// Total samples per pixel each tile must reach.
    pub budget: usize,
    /// Samples a single pass adds per pixel.
    pub step: usize,
    /// Tiles across the image.
    pub blocks_x: usize,
    /// Tiles down the image.
    pub blocks_y: usize,
    /// Edge length of a tile, in pixels.
    pub block_size: usize,
    /// Passes handled so far, for progress reporting.
    pub passes_done: usize,
    /// The tiles currently dispatched to workers.
    pub outstanding: Ghost<Set<int>>,
}

impl Driver {
    /// The number of tiles in the grid.
    pub open spec fn n_tiles(self) -> int {
        self.blocks_x * self.blocks_y
    }

    /// The queue of blocks waiting for their next pass.
    pub open spec fn queue_view(self) -> Seq<Block> {
        self.queue@
    }

    /// The tiles currently dispatched to workers.
    pub open spec fn dispatched(self) -> Set<int> {
        self.outstanding@
    }

    /// The tiles that have not yet been retired.
    pub open spec fn pending(self) -> Set<int> {
        self.registry@
    }

    /// A block that belongs to this render: grid coordinates inside the grid,
    /// and the configured tile size and per-pass sample count.
    pub open spec fn block_wf(self, b: Block) -> bool {
        &&& b.x < self.blocks_x
        &&& b.y < self.blocks_y
        &&& b.block_size == self.block_size
        &&& b.samples_to_do == self.step
    }

    /// The tiles of the blocks now in the queue.
    pub open spec fn queued_tiles(self) -> Set<int> {
        tiles_of(self.queue@, self.blocks_x as int)
    }

    /// The driver's invariant.  Every queued block belongs to this render and
    /// still owes samples; no tile is queued twice, nor both queued and
    /// dispatched; and the registry holds exactly the queued and the
    /// dispatched tiles — so a retired tile is gone from all three.
    pub open spec fn wf(self) -> bool {
        &&& self.blocks_x >= 1
        &&& self.blocks_y >= 1
        &&& self.step >= 1
        &&& self.budget >= 1
        &&& self.n_tiles() <= usize::MAX
        &&& self.registry.inv()
        &&& self.registry.capacity() == self.n_tiles()
        &&& forall|k: int| 0 <= k < self.queue@.len() ==> self.block_wf(#[trigger] self.queue@[k])
        &&& forall|k: int|
            0 <= k < self.queue@.len() ==> (#[trigger] self.queue@[k]).sample < self.budget
        &&& forall|k1: int, k2: int|
            0 <= k1 < k2 < self.queue@.len() ==> (#[trigger] self.queue@[k1]).tile_index(
                self.blocks_x as int,
            ) != (#[trigger] self.queue@[k2]).tile_index(self.blocks_x as int)
        &&& forall|k: int|
            0 <= k < self.queue@.len() ==> !self.outstanding@.contains(
                (#[trigger] self.queue@[k]).tile_index(self.blocks_x as int),
            )
        &&& forall|c: int| self.outstanding@.contains(c) ==> 0 <= c < self.n_tiles()
        &&& self.pending() == self.queued_tiles().union(self.outstanding@)
    }

    /// Builds the scheduler for an image of `width` by `height` pixels cut
    /// into tiles of edge `block_size`: one block per grid cell, each owing
    /// `budget` samples added `step` at a time, queued in shuffled order, and
    /// the registry holding every tile.
    pub fn new(width: usize, height: usize, block_size: usize, budget: usize, step: usize) -> (d:
        Driver)
        requires
            width >= 1,
            height >= 1,
            block_size >= 1,
            budget >= 1,
            step >= 1,
            width * height <= usize::MAX,
        ensures
            d.wf(),
            d.budget == budget,
            d.step == step,
            d.block_size == block_size,
            d.passes_done == 0,
            d.blocks_x == (width + block_size - 1) / block_size as int,
            d.blocks_y == (height + block_size - 1) / block_size as int,
            d.blocks_x * block_size >= width,
            (d.blocks_x - 1) * block_size < width,
            d.blocks_y * block_size >= height,
            (d.blocks_y - 1) * block_size < height,
            d.pending() == set_int_range(0, d.n_tiles()),
            d.pending().finite(),
            d.pending().len() == d.n_tiles(),
            d.dispatched() == Set::<int>::empty(),
            d.queue_view().len() == d.n_tiles(),
            forall|k: int|
                0 <= k < d.queue_view().len() ==> (#[trigger] d.queue_view()[k]).sample == 0,
            d.queued_tiles() == set_int_range(0, d.n_tiles()),
    {
        let blocks_x = blocks_count(width, block_size);
        let blocks_y = blocks_count(height, block_size);
        proof {
            assert(blocks_x * blocks_y <= width * height) by (nonlinear_arith)
                requires
                    0 <= blocks_x <= width,
                    0 <= blocks_y <= height,
            ;
        }
        let n = blocks_x * blocks_y;
        let mut queue: Vec<Block> = Vec::new();
        let mut gy: usize = 0;
        while gy < blocks_y
            invariant
                gy <= blocks_y,
                n == blocks_x * blocks_y,
                n <= usize::MAX,
                blocks_x >= 1,
                queue@.len() == gy * blocks_x,
                forall|k: int|
                    0 <= k < queue@.len() ==> (#[trigger] queue@[k]).tile_index(blocks_x as int)
                        == k,
                forall|k: int|
                    0 <= k < queue@.len() ==> (#[trigger] queue@[k]).x < blocks_x && queue@[k].y
                        < blocks_y && queue@[k].block_size == block_size && queue@[k].sample == 0
                        && queue@[k].samples_to_do == step,
            decreases blocks_y - gy,
        {
            let mut gx: usize = 0;
            proof {
                crate::block::lemma_grid_index(
                    blocks_x as int,
                    blocks_y as int,
                    0,
                    gy as int,
                );
            }
            while gx < blocks_x
                invariant
                    gx <= blocks_x,
                    gy < blocks_y,
                    n == blocks_x * blocks_y,
                    n <= usize::MAX,
                    blocks_x >= 1,
                    queue@.len() == gy * blocks_x + gx,
                    forall|k: int|
                        0 <= k < queue@.len() ==> (#[trigger] queue@[k]).tile_index(
                            blocks_x as int,
                        ) == k,
                    forall|k: int|
                        0 <= k < queue@.len() ==> (#[trigger] queue@[k]).x < blocks_x
                            && queue@[k].y < blocks_y && queue@[k].block_size == block_size
                            && queue@[k].sample == 0 && queue@[k].samples_to_do == step,
                decreases blocks_x - gx,
            {
                proof {
                    crate::block::lemma_grid_index(
                        blocks_x as int,
                        blocks_y as int,
                        gx as int,
                        gy as int,
                    );
                }
                let b = Block {
                    x: gx,
                    y: gy,
                    block_size,
                    sample: 0,
                    samples_to_do: step,
                };
                queue.push(b);
                gx = gx + 1;
            }
            proof {
                assert(gy * blocks_x + blocks_x == (gy + 1) * blocks_x) by (nonlinear_arith);
            }
            gy = gy + 1;
        }
        proof {
            assert(blocks_y * blocks_x == blocks_x * blocks_y) by (nonlinear_arith);
        }
        let ghost raster = queue@;
        shuffle_blocks(&mut queue);
        proof {
            lemma_shuffle_grid(raster, queue@, blocks_x as int);
        }
        let registry = Registry::new(n);
        let d = Driver {
            queue,
            registry,
            budget,
            step,
            blocks_x,
            blocks_y,
            block_size,
            passes_done: 0,
            outstanding: Ghost(Set::empty()),
        };
        proof {
            assert forall|k: int| 0 <= k < d.queue@.len() implies d.block_wf(
                #[trigger] d.queue@[k],
            ) && d.queue@[k].sample == 0 by {
                assert(raster.contains(d.queue@[k]));
                let j = choose|j: int| 0 <= j < raster.len() && raster[j] == d.queue@[k];
            }
            assert(d.queued_tiles() =~= set_int_range(0, d.n_tiles()));
            assert(d.pending() =~= d.queued_tiles().union(d.outstanding@));
        }
        d
    }

    /// Takes the next block to render from the back of the queue; its tile
    /// moves from queued to dispatched.  Returns nothing when the queue is
    /// empty: every pending tile is already dispatched, or the render is over.
    pub fn pop(&mut self) -> (r: Option<Block>)
        requires
            old(self).wf(),
        ensures
            final(self).wf(),
            final(self).budget == old(self).budget,
            final(self).step == old(self).step,
            final(self).blocks_x == old(self).blocks_x,
            final(self).blocks_y == old(self).blocks_y,
            final(self).block_size == old(self).block_size,
            final(self).passes_done == old(self).passes_done,
            final(self).pending() == old(self).pending(),
            r is None ==> final(self).queue_view() == old(self).queue_view() && final(self).dispatched() == old(self).dispatched() && old(self).queue_view().len() == 0,
            r matches Some(b) ==> old(self).queue_view().len() > 0 && b == old(self).queue_view().last() && final(self).queue_view() == old(self).queue_view().drop_last()
                && final(self).dispatched() == old(self).dispatched().insert(
                b.tile_index(old(self).blocks_x as int),
            ) && old(self).block_wf(b) && b.sample < old(self).budget,
    {
        let ghost prev = *self;
        let r = self.queue.pop();
        if let Some(b) = r {
            proof {
                crate::block::lemma_grid_index(
                    self.blocks_x as int,
                    self.blocks_y as int,
                    b.x as int,
                    b.y as int,
                );
            }
            self.outstanding = Ghost(
                self.outstanding@.insert(b.tile_index(self.blocks_x as int)),
            );
            proof {
                let bx = prev.blocks_x as int;
                let oldq = prev.queue@;
                let newq = self.queue@;
                let c = b.tile_index(bx);
                assert(newq =~= oldq.drop_last());
                assert(prev.queued_tiles() =~= self.queued_tiles().insert(c)) by {
                    assert forall|t: int| prev.queued_tiles().contains(t) implies self
                        .queued_tiles().insert(c).contains(t) by {
                        let k = choose|k: int|
                            0 <= k < oldq.len() && (#[trigger] oldq[k]).tile_index(bx) == t;
                        if k < oldq.len() - 1 {
                            assert(newq[k].tile_index(bx) == t);
                        }
                    }
                    assert forall|t: int| self.queued_tiles().insert(c).contains(t) implies prev
                        .queued_tiles().contains(t) by {
                        if t == c {
                            assert(oldq[oldq.len() - 1].tile_index(bx) == c);
                        } else {
                            let k = choose|k: int|
                                0 <= k < newq.len() && (#[trigger] newq[k]).tile_index(bx) == t;
                            assert(oldq[k].tile_index(bx) == t);
                        }
                    }
                }
                assert(self.pending() =~= self.queued_tiles().union(self.outstanding@));
            }
            Some(b)
        } else {
            r
        }
    }

    /// Accepts a rendered block back from a worker and decides its fate: a
    /// block still short of the budget is reinserted into the queue at a
    /// uniformly random position, while a block that has reached the budget
    /// is retired — its tile leaves the registry, exactly once, and the
    /// registry shrinks by one.
    pub fn handle_finished(&mut self, b: Block) -> (retired: bool)
        requires
            old(self).wf(),
            old(self).block_wf(b),
            old(self).dispatched().contains(b.tile_index(old(self).blocks_x as int)),
        ensures
            final(self).wf(),
            final(self).budget == old(self).budget,
            final(self).step == old(self).step,
            final(self).blocks_x == old(self).blocks_x,
            final(self).blocks_y == old(self).blocks_y,
            final(self).block_size == old(self).block_size,
            final(self).dispatched() == old(self).dispatched().remove(
                b.tile_index(old(self).blocks_x as int),
            ),
            final(self).passes_done == (if (old(self).passes_done < usize::MAX) {
                old(self).passes_done + 1int
            } else {
                old(self).passes_done as int
            }),
            retired == (b.sample >= old(self).budget),
            retired ==> final(self).queue_view() == old(self).queue_view() && final(self).pending() == old(self).pending().remove(b.tile_index(old(self).blocks_x as int))
                && final(self).pending().len() == old(self).pending().len() - 1,
            !retired ==> final(self).pending() == old(self).pending() && (exists|i: int|
                0 <= i <= old(self).queue_view().len() && final(self).queue_view() == old(self).queue_view().insert(i, b)),
    {
        let ghost prev = *self;
        proof {
            crate::block::lemma_grid_index(
                self.blocks_x as int,
                self.blocks_y as int,
                b.x as int,
                b.y as int,
            );
        }
        let c = b.tile_id(self.blocks_x);
        if self.passes_done < usize::MAX {
            self.passes_done = self.passes_done + 1;
        }
        if b.sample < self.budget {
            let len = self.queue.len();
            let index = if len > 1 {
                random_below(len)
            } else {
                0
            };
            self.queue.insert(index, b);
            self.outstanding = Ghost(self.outstanding@.remove(c as int));
            proof {
                let bx = prev.blocks_x as int;
                let oldq = prev.queue@;
                let newq = self.queue@;
                oldq.insert_ensures(index as int, b);
                assert forall|k1: int, k2: int| 0 <= k1 < k2 < newq.len() implies (
                #[trigger] newq[k1]).tile_index(bx) != (#[trigger] newq[k2]).tile_index(bx) by {
                    if k1 == index {
                        assert(newq[k2] == oldq[k2 - 1]);
                        assert(!prev.outstanding@.contains(oldq[k2 - 1].tile_index(bx)));
                    } else if k2 == index {
                        assert(newq[k1] == oldq[k1]);
                        assert(!prev.outstanding@.contains(oldq[k1].tile_index(bx)));
                    } else if k2 < index {
                        assert(newq[k1] == oldq[k1]);
                        assert(newq[k2] == oldq[k2]);
                    } else if k1 > index {
                        assert(newq[k1] == oldq[k1 - 1]);
                        assert(newq[k2] == oldq[k2 - 1]);
                    } else {
                        assert(newq[k1] == oldq[k1]);
                        assert(newq[k2] == oldq[k2 - 1]);
                    }
                }
                assert(self.queued_tiles() =~= prev.queued_tiles().insert(c as int)) by {
                    assert forall|t: int| self.queued_tiles().contains(t) implies prev
                        .queued_tiles().insert(c as int).contains(t) by {
                        let k = choose|k: int|
                            0 <= k < newq.len() && (#[trigger] newq[k]).tile_index(bx) == t;
                        if k < index {
                            assert(oldq[k].tile_index(bx) == t);
                        } else if k > index {
                            assert(newq[k] == oldq[k - 1]);
                            assert(oldq[k - 1].tile_index(bx) == t);
                        }
                    }
                    assert forall|t: int| prev.queued_tiles().insert(c as int).contains(
                        t,
                    ) implies self.queued_tiles().contains(t) by {
                        if t == c {
                            assert(newq[index as int].tile_index(bx) == t);
                        } else {
                            let k = choose|k: int|
                                0 <= k < oldq.len() && (#[trigger] oldq[k]).tile_index(bx) == t;
                            if k < index {
                                assert(newq[k].tile_index(bx) == t);
                            } else {
                                assert(newq[k + 1] == oldq[k]);
                                assert(newq[k + 1].tile_index(bx) == t);
                            }
                        }
                    }
                }
                assert(self.pending() =~= self.queued_tiles().union(self.outstanding@));
                assert(self.queue_view() == prev.queue_view().insert(index as int, b));
            }
            false
        } else {
            let _was_pending = self.registry.remove(c);
            self.outstanding = Ghost(self.outstanding@.remove(c as int));
            proof {
                let bx = prev.blocks_x as int;
                let oldq = prev.queue@;
                assert(prev.pending().contains(c as int));
                assert(!prev.queued_tiles().contains(c as int)) by {
                    if prev.queued_tiles().contains(c as int) {
                        let k = choose|k: int|
                            0 <= k < oldq.len() && (#[trigger] oldq[k]).tile_index(bx) == c;
                        assert(!prev.outstanding@.contains(oldq[k].tile_index(bx)));
                    }
                }
                assert(self.pending() =~= self.queued_tiles().union(self.outstanding@));
            }
            true
        }
    }

    /// Whether every tile has been retired: the render is complete.
    pub fn done(&self) -> (r: bool)
        requires
            self.wf(),
        ensures
            r == self.pending().is_empty(),
    {
        self.registry.is_empty()
    }

    /// The number of tiles not yet retired.
    pub fn pending_tiles(&self) -> (r: usize)
        requires
            self.wf(),
        ensures
            r == self.pending().len(),
    {
        self.registry.len()
    }

    /// The total number of passes a full render performs: `budget / step`
    /// rounded up, once per tile.  Progress is the share of passes handled so
    /// far out of this total.
    pub fn total_passes(&self) -> (r: usize)
        requires
            self.wf(),
            ((self.budget + self.step - 1) / self.step as int) * self.n_tiles() <= usize::MAX,
        ensures
            r == ((self.budget + self.step - 1) / self.step as int) * self.n_tiles(),
    {
        let per_tile = div_ceil(self.budget, self.step);
        let n = self.blocks_x * self.blocks_y;
        per_tile * n
    }
}

/// A retired tile is gone for good: a tile no longer pending is neither
/// queued nor dispatched, so the scheduler can never hand it out again.
pub proof fn lemma_retired_stays_out(d: Driver, c: int)
    requires
        d.wf(),
        !d.pending().contains(c),
    ensures
        !d.queued_tiles().contains(c),
        !d.dispatched().contains(c),
        forall|k: int|
            0 <= k < d.queue_view().len() ==> (#[trigger] d.queue_view()[k]).tile_index(
                d.blocks_x as int,
            ) != c,
{
    assert(!d.queued_tiles().contains(c));
    assert forall|k: int| 0 <= k < d.queue_view().len() implies (
    #[trigger] d.queue_view()[k]).tile_index(d.blocks_x as int) != c by {
        if d.queue_view()[k].tile_index(d.blocks_x as int) == c {
            assert(d.queued_tiles().contains(c));
        }
    }
}

/// After enough passes the budget is reached: `ceil(budget / step)` passes of
/// `step` samples each accumulate at least `budget` samples.
pub proof fn lemma_budget_reached(budget: int, step: int)
    requires
        budget >= 0,
        step >= 1,
    ensures
        ((budget + step - 1) / step) * step >= budget,
{
    let q = (budget + step - 1) / step;
    vstd::arithmetic::div_mod::lemma_fundamental_div_mod(budget + step - 1, step);
    vstd::arithmetic::div_mod::lemma_mod_bound(budget + step - 1, step);
    assert(q * step == step * q) by (nonlinear_arith);
}

} // verus!
