use vstd::prelude::*;
use rand::seq::SliceRandom;

verus! {

use vstd::multiset::Multiset;
use vstd::seq_lib::lemma_multiset_commutative;
use vstd::arithmetic::div_mod::{
    lemma_fundamental_div_mod, lemma_fundamental_div_mod_converse, lemma_mod_bound,
    lemma_div_is_ordered, lemma_div_pos_is_pos,
};
use crate::extent::ImageExtent2D;

/// Pixels handed out per chunk by the random strategy.
pub const RANDOM_PIXELS_PER_CHUNK: usize = 20000;

/// Pixels handed out per chunk by the line strategy: one full-width scanline
/// of the largest supported target.
pub const LINE_PIXELS_PER_CHUNK: usize = 1920;

/// Width of one tile of the box strategy, in pixels.
pub const BOX_WIDTH: u32 = 128;

/// Height of one tile of the box strategy, in pixels.
pub const BOX_HEIGHT: u32 = 128;

/// How many times a full partition of `e`'s pixel grid holds index `p`:
/// once for every pixel of the grid, and never for anything else.
pub open spec fn index_count(e: ImageExtent2D, p: usize) -> nat {
    if (p as int) < e.spec_size() {
        1nat
    } else {
        0nat
    }
}

/// `pending` holds every pixel index of `e` exactly once, and nothing else.
pub open spec fn holds_full_partition(e: ImageExtent2D, pending: Multiset<usize>) -> bool {
    forall|p: usize| #[trigger] pending.count(p) == index_count(e, p)
}

/// The sequence `0, 1, …, n-1` of machine indices.
pub open spec fn iota_seq(n: int) -> Seq<usize> {
    Seq::new(n as nat, |i: int| i as usize)
}

/// The pixel indices of `e` in buffer (scanline) order.
pub open spec fn full_index_seq(e: ImageExtent2D) -> Seq<usize> {
    iota_seq(e.spec_size())
}

/// All indices that the given chunks hold, with multiplicity.
pub open spec fn flat_multiset(chunks: Seq<Seq<usize>>) -> Multiset<usize>
    decreases chunks.len(),
{
    if chunks.len() == 0 {
        Multiset::empty()
    } else {
        flat_multiset(chunks.drop_last()).add(chunks.last().to_multiset())
    }
}

/// The sequence `0, 1, …, n-1` of machine indices holds each value below `n`
/// exactly once, and nothing else.
proof fn lemma_iota_counts(n: int)
    requires
        0 <= n <= usize::MAX + 1,
    ensures
        forall|p: usize| #[trigger] iota_seq(n).to_multiset().count(p)
            == (if (p as int) < n { 1nat } else { 0nat }),
{
    broadcast use vstd::seq_lib::group_to_multiset_ensures;
    broadcast use vstd::multiset::group_multiset_axioms;

    let s = iota_seq(n);
    assert forall|i: int, j: int|
        0 <= i < s.len() && 0 <= j < s.len() && i != j implies s[i] != s[j] by {
        assert(s[i] == i as usize);
        assert(s[j] == j as usize);
    }
    assert(s.no_duplicates());
    s.lemma_multiset_has_no_duplicates();
    assert forall|p: usize| #[trigger] s.to_multiset().count(p)
        == (if (p as int) < n { 1nat } else { 0nat }) by {
        if (p as int) < n {
            assert(s[p as int] == p);
            assert(s.contains(p));
            assert(s.to_multiset().count(p) > 0);
        } else {
            if s.to_multiset().count(p) > 0 {
                assert(s.contains(p));
                let i = choose|i: int| 0 <= i < s.len() && s[i] == p;
                assert(s[i] == i as usize);
                assert(false);
            }
        }
    }
}

/// The scanline ordering of the index set holds every pixel index of the
/// extent exactly once; it is the reference partition every strategy
/// regenerates on `reset`.
pub proof fn lemma_full_index_seq_counts(e: ImageExtent2D)
    requires
        e.wf(),
    ensures
        forall|p: usize| #[trigger] full_index_seq(e).to_multiset().count(p) == index_count(e, p),
{
    lemma_iota_counts(e.spec_size());
}

/// Joining two halves of a sequence of indices joins their multisets.
proof fn lemma_take_skip_multiset(s: Seq<usize>, k: int)
    requires
        0 <= k <= s.len(),
    ensures
        s.to_multiset() == s.subrange(0, k).to_multiset().add(
            s.subrange(k, s.len() as int).to_multiset(),
        ),
{
    s.lemma_split_at(k);
    lemma_multiset_commutative(s.subrange(0, k), s.subrange(k, s.len() as int));
}

/// Appending a chunk to a list of chunks adds its indices to the flattening.
pub proof fn lemma_flat_multiset_push(chunks: Seq<Seq<usize>>, c: Seq<usize>)
    ensures
        flat_multiset(chunks.push(c)) == flat_multiset(chunks).add(c.to_multiset()),
{
    assert(chunks.push(c).drop_last() =~= chunks);
    assert(chunks.push(c).last() == c);
}

/// Relies on rand: `SliceRandom::shuffle` with the thread-local generator
/// permutes the elements of the slice in place, so the multiset of elements
/// is unchanged.
#[verifier::external_body]
fn shuffle(v: &mut Vec<usize>)
    ensures
        final(v)@.to_multiset() == old(v)@.to_multiset(),
        final(v)@.len() == old(v)@.len(),
{
    let mut rng = rand::rng();
    v.shuffle(&mut rng);
}

/// Work partitioner that hands the pixel indices out in shuffled order, a
/// fixed number of pixels per chunk, for a noise-like progressive fill.
pub struct RandomChunk {
    draw_indexes: Vec<usize>,
}

impl RandomChunk {
    /// The indices not yet handed out, in the order they will leave.
    pub closed spec fn remaining(self) -> Seq<usize> {
        self.draw_indexes@
    }

    /// The indices not yet handed out, with multiplicity.
    pub open spec fn pending(self) -> Multiset<usize> {
        self.remaining().to_multiset()
    }

    /// No work unit is left in the current pass.
    pub open spec fn spec_complete(self) -> bool {
        self.remaining().len() == 0
    }

    /// Length of the next chunk: a full slice, or whatever is left.
    pub open spec fn spec_chunk_len(self) -> int {
        if self.remaining().len() < RANDOM_PIXELS_PER_CHUNK {
            self.remaining().len() as int
        } else {
            RANDOM_PIXELS_PER_CHUNK as int
        }
    }

    /// A fresh partitioner with no pending work; `reset` populates it.
    pub fn new() -> (s: RandomChunk)
        ensures
            s.remaining() == Seq::<usize>::empty(),
            s.spec_complete(),
    {
        RandomChunk { draw_indexes: Vec::new() }
    }

    /// Regenerates the partition: afterwards every pixel index of `extent` is
    /// pending exactly once, in shuffled order, and work is outstanding
    /// whenever the extent has any pixels.
    pub fn reset(&mut self, extent: ImageExtent2D)
        requires
            extent.wf(),
        ensures
            holds_full_partition(extent, final(self).pending()),
            final(self).remaining().len() == extent.spec_size(),
            extent.spec_size() > 0 ==> !final(self).spec_complete(),
    {
        self.draw_indexes.clear();
        let size = extent.size();
        let mut i: usize = 0;
        while i < size
            invariant
                i <= size,
                size == extent.spec_size(),
                extent.wf(),
                self.draw_indexes@ == full_index_seq(extent).take(i as int),
            decreases size - i,
        {
            self.draw_indexes.push(i);
            i += 1;
            assert(self.draw_indexes@ =~= full_index_seq(extent).take(i as int));
        }
        assert(self.draw_indexes@ =~= full_index_seq(extent));
        shuffle(&mut self.draw_indexes);
        proof {
            lemma_full_index_seq_counts(extent);
        }
    }

    /// Hands out the next chunk: the first `spec_chunk_len` pending indices,
    /// which leave the pending set and reappear nowhere else.
    pub fn get_chunk(&mut self) -> (chunk: Vec<usize>)
        ensures
            chunk@ == old(self).remaining().subrange(0, old(self).spec_chunk_len()),
            final(self).remaining() == old(self).remaining().subrange(
                old(self).spec_chunk_len(),
                old(self).remaining().len() as int,
            ),
            old(self).pending() == final(self).pending().add(chunk@.to_multiset()),
    {
        broadcast use vstd::multiset::group_multiset_axioms;

        let len = self.draw_indexes.len();
        let k = if RANDOM_PIXELS_PER_CHUNK < len {
            RANDOM_PIXELS_PER_CHUNK
        } else {
            len
        };
        let mut chunk: Vec<usize> = Vec::new();
        let mut i: usize = 0;
        while i < k
            invariant
                i <= k,
                k <= self.draw_indexes@.len(),
                self.draw_indexes@ == old(self).remaining(),
                chunk@ == self.draw_indexes@.subrange(0, i as int),
            decreases k - i,
        {
            let v = self.draw_indexes[i];
            chunk.push(v);
            i += 1;
            assert(chunk@ =~= self.draw_indexes@.subrange(0, i as int));
        }
        let rest = self.draw_indexes.split_off(k);
        self.draw_indexes = rest;
        proof {
            let s = old(self).remaining();
            lemma_take_skip_multiset(s, old(self).spec_chunk_len());
            assert(s.to_multiset() == chunk@.to_multiset().add(self.draw_indexes@.to_multiset()));
            assert(chunk@.to_multiset().add(self.draw_indexes@.to_multiset()) =~= self
                .draw_indexes@.to_multiset().add(chunk@.to_multiset()));
        }
        chunk
    }

    /// Whether every index of the current pass has been handed out.
    pub fn is_complete(&self) -> (r: bool)
        ensures
            r == self.spec_complete(),
    {
        self.draw_indexes.is_empty()
    }
}

/// Work partitioner that hands the pixel indices out in buffer order, a fixed
/// number of pixels per chunk, for a scanline progressive fill.
pub struct LineChunk {
    draw_indexes: Vec<usize>,
}

impl LineChunk {
    /// The indices not yet handed out, in the order they will leave.
    pub closed spec fn remaining(self) -> Seq<usize> {
        self.draw_indexes@
    }

    /// The indices not yet handed out, with multiplicity.
    pub open spec fn pending(self) -> Multiset<usize> {
        self.remaining().to_multiset()
    }

    /// No work unit is left in the current pass.
    pub open spec fn spec_complete(self) -> bool {
        self.remaining().len() == 0
    }

    /// Length of the next chunk: a full slice, or whatever is left.
    pub open spec fn spec_chunk_len(self) -> int {
        if self.remaining().len() < LINE_PIXELS_PER_CHUNK {
            self.remaining().len() as int
        } else {
            LINE_PIXELS_PER_CHUNK as int
        }
    }

    /// A fresh partitioner with no pending work; `reset` populates it.
    pub fn new() -> (s: LineChunk)
        ensures
            s.remaining() == Seq::<usize>::empty(),
            s.spec_complete(),
    {
        LineChunk { draw_indexes: Vec::new() }
    }

    /// Regenerates the partition: afterwards the pending indices are exactly
    /// the pixel indices of `extent`, in buffer order.
    pub fn reset(&mut self, extent: ImageExtent2D)
        requires
            extent.wf(),
        ensures
            final(self).remaining() == full_index_seq(extent),
            holds_full_partition(extent, final(self).pending()),
            extent.spec_size() > 0 ==> !final(self).spec_complete(),
    {
        self.draw_indexes.clear();
        let size = extent.size();
        let mut i: usize = 0;
        while i < size
            invariant
                i <= size,
                size == extent.spec_size(),
                extent.wf(),
                self.draw_indexes@ == full_index_seq(extent).take(i as int),
            decreases size - i,
        {
            self.draw_indexes.push(i);
            i += 1;
            assert(self.draw_indexes@ =~= full_index_seq(extent).take(i as int));
        }
        assert(self.draw_indexes@ =~= full_index_seq(extent));
        proof {
            lemma_full_index_seq_counts(extent);
        }
    }

    /// Hands out the next chunk: the first `spec_chunk_len` pending indices,
    /// in buffer order; they leave the pending set and reappear nowhere else.
    pub fn get_chunk(&mut self) -> (chunk: Vec<usize>)
        ensures
            chunk@ == old(self).remaining().subrange(0, old(self).spec_chunk_len()),
            final(self).remaining() == old(self).remaining().subrange(
                old(self).spec_chunk_len(),
                old(self).remaining().len() as int,
            ),
            old(self).pending() == final(self).pending().add(chunk@.to_multiset()),
    {
        broadcast use vstd::multiset::group_multiset_axioms;

        let len = self.draw_indexes.len();
        let k = if LINE_PIXELS_PER_CHUNK < len {
            LINE_PIXELS_PER_CHUNK
        } else {
            len
        };
        let mut chunk: Vec<usize> = Vec::new();
        let mut i: usize = 0;
        while i < k
            invariant
                i <= k,
                k <= self.draw_indexes@.len(),
                self.draw_indexes@ == old(self).remaining(),
                chunk@ == self.draw_indexes@.subrange(0, i as int),
            decreases k - i,
        {
            let v = self.draw_indexes[i];
            chunk.push(v);
            i += 1;
            assert(chunk@ =~= self.draw_indexes@.subrange(0, i as int));
        }
        let rest = self.draw_indexes.split_off(k);
        self.draw_indexes = rest;
        proof {
            let s = old(self).remaining();
            lemma_take_skip_multiset(s, old(self).spec_chunk_len());
            assert(s.to_multiset() == chunk@.to_multiset().add(self.draw_indexes@.to_multiset()));
            assert(chunk@.to_multiset().add(self.draw_indexes@.to_multiset()) =~= self
                .draw_indexes@.to_multiset().add(chunk@.to_multiset()));
        }
        chunk
    }

    /// Whether every index of the current pass has been handed out.
    pub fn is_complete(&self) -> (r: bool)
        ensures
            r == self.spec_complete(),
    {
        self.draw_indexes.is_empty()
    }
}

/// Number of tiles across a dimension of `w` pixels with tiles of `t` pixels:
/// all full tiles, plus one clipped tile for any remainder.
pub open spec fn dim_tiles(w: int, t: int) -> int {
    w / t + if w % t == 0 {
        0int
    } else {
        1int
    }
}

/// Tile columns of the tiling of `e`.
pub open spec fn tiles_x(e: ImageExtent2D) -> int {
    dim_tiles(e.width as int, BOX_WIDTH as int)
}

/// Tile rows of the tiling of `e`.
pub open spec fn tiles_y(e: ImageExtent2D) -> int {
    dim_tiles(e.height as int, BOX_HEIGHT as int)
}

/// The tile identifiers of `e`'s tiling, in row-major order.
pub open spec fn full_tile_seq(e: ImageExtent2D) -> Seq<usize> {
    iota_seq(tiles_x(e) * tiles_y(e))
}

/// The identifier of the tile that holds pixel index `p`; tiles are numbered
/// row-major over the tile grid.
pub open spec fn spec_owner(e: ImageExtent2D, p: usize) -> int {
    let w = e.width as int;
    ((p as int) / w / (BOX_HEIGHT as int)) * tiles_x(e) + ((p as int) % w) / (BOX_WIDTH as int)
}

/// Tile `t` of `e`'s tiling holds pixel index `p`.
pub open spec fn tile_covers(e: ImageExtent2D, t: int, p: usize) -> bool {
    (p as int) < e.spec_size() && t == spec_owner(e, p)
}

/// How many of the listed tiles hold pixel index `p`.
pub open spec fn covered_count(e: ImageExtent2D, tids: Seq<usize>, p: usize) -> nat
    decreases tids.len(),
{
    if tids.len() == 0 {
        0nat
    } else {
        covered_count(e, tids.drop_last(), p) + if tile_covers(e, tids.last() as int, p) {
            1nat
        } else {
            0nat
        }
    }
}

/// `c` is exactly the pixel set of tile `t` of `e`'s tiling: each pixel the
/// tile covers appears once, and nothing else appears.
pub open spec fn is_tile_chunk(e: ImageExtent2D, t: int, c: Seq<usize>) -> bool {
    forall|p: usize| #[trigger] c.to_multiset().count(p) == (if tile_covers(e, t, p) {
        1nat
    } else {
        0nat
    })
}

/// `c` is exactly the pixel set of some tile of `e`'s tiling.
pub open spec fn is_some_tile_chunk(e: ImageExtent2D, c: Seq<usize>) -> bool {
    exists|t: int| 0 <= t < tiles_x(e) * tiles_y(e) && #[trigger] is_tile_chunk(e, t, c)
}

/// Every listed chunk is exactly the pixel set of one tile of `e`'s tiling.
pub open spec fn tiled_boxes(e: ImageExtent2D, boxes: Seq<Seq<usize>>) -> bool {
    forall|b: int| 0 <= b < boxes.len() ==> is_some_tile_chunk(e, #[trigger] boxes[b])
}

/// Pixel index `p` lies in the given half-open pixel rectangle of `e`.
pub open spec fn in_rect(e: ImageExtent2D, x0: int, x1: int, y0: int, y1: int, p: usize) -> bool {
    let w = e.width as int;
    x0 <= (p as int) % w < x1 && y0 <= (p as int) / w < y1
}

/// Facts about the tile count of one dimension: an empty dimension has no
/// tiles, every pixel coordinate falls inside some tile, and every tile
/// starts inside the dimension.
proof fn lemma_dim_tiles(w: int, t: int)
    requires
        w >= 0,
        t >= 1,
    ensures
        w == 0 ==> dim_tiles(w, t) == 0,
        w >= 1 ==> 1 <= dim_tiles(w, t) <= w,
        forall|x: int| 0 <= x < w ==> #[trigger] (x / t) < dim_tiles(w, t),
        forall|ti: int| 0 <= ti < dim_tiles(w, t) ==> #[trigger] (t * ti) < w,
{
    let q = w / t;
    let r = w % t;
    lemma_fundamental_div_mod(w, t);
    lemma_mod_bound(w, t);
    lemma_div_pos_is_pos(w, t);
    if w == 0 {
        assert(q == 0 && r == 0) by (nonlinear_arith)
            requires
                w == 0,
                t >= 1,
                w == t * q + r,
                0 <= r < t,
                q >= 0,
        ;
    }
    if w >= 1 {
        if r == 0 {
            assert(q >= 1 && q <= w) by (nonlinear_arith)
                requires
                    w >= 1,
                    t >= 1,
                    w == t * q,
                    q >= 0,
            ;
        } else {
            assert(q + 1 <= w) by (nonlinear_arith)
                requires
                    w == t * q + r,
                    t >= 1,
                    q >= 0,
                    r >= 1,
            ;
        }
    }
    assert forall|x: int| 0 <= x < w implies #[trigger] (x / t) < dim_tiles(w, t) by {
        lemma_div_is_ordered(x, w - 1, t);
        if r == 0 {
            assert(q >= 1) by (nonlinear_arith)
                requires
                    w >= 1,
                    t >= 1,
                    w == t * q,
                    q >= 0,
            ;
            assert(w - 1 == (q - 1) * t + (t - 1)) by (nonlinear_arith)
                requires
                    w == t * q,
            ;
            lemma_fundamental_div_mod_converse(w - 1, t, q - 1, t - 1);
        } else {
            assert(w - 1 == q * t + (r - 1)) by (nonlinear_arith)
                requires
                    w == t * q + r,
            ;
            lemma_fundamental_div_mod_converse(w - 1, t, q, r - 1);
        }
    }
    assert forall|ti: int| 0 <= ti < dim_tiles(w, t) implies #[trigger] (t * ti) < w by {
        if r == 0 {
            assert(t * ti < w) by (nonlinear_arith)
                requires
                    w == t * q,
                    0 <= ti < q,
                    t >= 1,
            ;
        } else {
            assert(t * ti < w) by (nonlinear_arith)
                requires
                    w == t * q + r,
                    0 <= ti <= q,
                    t >= 1,
                    r >= 1,
            ;
        }
    }
}

/// The owning tile of a pixel of the extent is one of the tiling's tiles,
/// and the tiling has no more tiles than the extent has pixels.
proof fn lemma_owner_bounds(e: ImageExtent2D, p: usize)
    requires
        e.wf(),
        (p as int) < e.spec_size(),
    ensures
        0 <= spec_owner(e, p) < tiles_x(e) * tiles_y(e),
        tiles_x(e) * tiles_y(e) <= e.spec_size(),
{
    let w = e.width as int;
    let h = e.height as int;
    assert(w >= 1 && h >= 1) by (nonlinear_arith)
        requires
            w >= 0,
            h >= 0,
            w * h > 0,
    ;
    lemma_mod_bound(p as int, w);
    lemma_div_pos_is_pos(p as int, w);
    let x = (p as int) % w;
    let y = (p as int) / w;
    assert(w * h - 1 == (h - 1) * w + (w - 1)) by (nonlinear_arith);
    lemma_fundamental_div_mod_converse(w * h - 1, w, h - 1, w - 1);
    lemma_div_is_ordered(p as int, w * h - 1, w);
    assert(y < h);
    lemma_dim_tiles(w, BOX_WIDTH as int);
    lemma_dim_tiles(h, BOX_HEIGHT as int);
    let tc = x / (BOX_WIDTH as int);
    let tr = y / (BOX_HEIGHT as int);
    lemma_div_pos_is_pos(x, BOX_WIDTH as int);
    lemma_div_pos_is_pos(y, BOX_HEIGHT as int);
    assert(0 <= tr * tiles_x(e) + tc < tiles_x(e) * tiles_y(e)) by (nonlinear_arith)
        requires
            0 <= tc < tiles_x(e),
            0 <= tr < tiles_y(e),
    ;
    assert(tiles_x(e) * tiles_y(e) <= w * h) by (nonlinear_arith)
        requires
            1 <= tiles_x(e) <= w,
            1 <= tiles_y(e) <= h,
    ;
}

/// Counting the covering tiles over a list of tile identifiers is counting
/// the occurrences of the pixel's owning tile.
proof fn lemma_covered_count_is_count(e: ImageExtent2D, tids: Seq<usize>, p: usize, o: usize)
    requires
        (p as int) < e.spec_size(),
        o as int == spec_owner(e, p),
    ensures
        covered_count(e, tids, p) == tids.to_multiset().count(o),
    decreases tids.len(),
{
    broadcast use vstd::seq_lib::group_to_multiset_ensures;
    broadcast use vstd::multiset::group_multiset_axioms;

    if tids.len() == 0 {
        vstd::multiset::lemma_multiset_empty_len(tids.to_multiset());
    } else {
        let pre = tids.drop_last();
        lemma_covered_count_is_count(e, pre, p, o);
        assert(pre.push(tids.last()) =~= tids);
        assert(tids.to_multiset() =~= pre.to_multiset().insert(tids.last()));
    }
}

/// Over one full pass of the tiling, every pixel of the extent is covered by
/// exactly one listed tile, and nothing outside the extent is covered.
proof fn lemma_covered_count_full(e: ImageExtent2D, tids: Seq<usize>, p: usize)
    requires
        e.wf(),
        tids.to_multiset() == full_tile_seq(e).to_multiset(),
    ensures
        covered_count(e, tids, p) == index_count(e, p),
    decreases tids.len(),
{
    broadcast use vstd::seq_lib::group_to_multiset_ensures;
    broadcast use vstd::multiset::group_multiset_axioms;

    if (p as int) < e.spec_size() {
        lemma_owner_bounds(e, p);
        let o = spec_owner(e, p) as usize;
        lemma_covered_count_is_count(e, tids, p, o);
        lemma_iota_counts(tiles_x(e) * tiles_y(e));
        assert(full_tile_seq(e).to_multiset().count(o) == 1);
    } else {
        lemma_covered_count_outside(e, tids, p);
    }
}

/// No tile covers a pixel index that lies outside the extent.
proof fn lemma_covered_count_outside(e: ImageExtent2D, tids: Seq<usize>, p: usize)
    requires
        (p as int) >= e.spec_size(),
    ensures
        covered_count(e, tids, p) == 0,
    decreases tids.len(),
{
    if tids.len() > 0 {
        lemma_covered_count_outside(e, tids.drop_last(), p);
    }
}

/// Builds the pixel-index chunk of tile `t` of the tiling of `extent`: the
/// chunk holds exactly the pixel indices that the tile covers, each once.
#[verifier::loop_isolation(false)]
fn build_tile(extent: ImageExtent2D, t: usize, cols: u32) -> (chunk: Vec<usize>)
    requires
        extent.wf(),
        cols as int == tiles_x(extent),
        (t as int) < tiles_x(extent) * tiles_y(extent),
    ensures
        is_tile_chunk(extent, t as int, chunk@),
        chunk@.len() > 0,
{
    let w = extent.width;
    let h = extent.height;
    proof {
        lemma_dim_tiles(w as int, BOX_WIDTH as int);
        lemma_dim_tiles(h as int, BOX_HEIGHT as int);
        assert(tiles_x(extent) >= 1 && tiles_y(extent) >= 1) by (nonlinear_arith)
            requires
                tiles_x(extent) >= 0,
                tiles_y(extent) >= 0,
                0 <= (t as int) < tiles_x(extent) * tiles_y(extent),
        ;
        assert(w >= 1 && h >= 1);
    }
    let ti = t % (cols as usize);
    let tj = t / (cols as usize);
    proof {
        lemma_mod_bound(t as int, cols as int);
        lemma_div_pos_is_pos(t as int, cols as int);
        lemma_fundamental_div_mod(t as int, cols as int);
        assert(tiles_x(extent) * tiles_y(extent) - 1 == (tiles_y(extent) - 1) * tiles_x(extent) + (
        tiles_x(extent) - 1)) by (nonlinear_arith);
        lemma_fundamental_div_mod_converse(
            tiles_x(extent) * tiles_y(extent) - 1,
            tiles_x(extent),
            tiles_y(extent) - 1,
            tiles_x(extent) - 1,
        );
        lemma_div_is_ordered(t as int, tiles_x(extent) * tiles_y(extent) - 1, tiles_x(extent));
        assert((tj as int) < tiles_y(extent));
    }
    let x_min: u32 = (ti as u32) * BOX_WIDTH;
    let rem_x = w - x_min;
    let x_max: u32 = if rem_x < BOX_WIDTH {
        w
    } else {
        x_min + BOX_WIDTH
    };
    let y_min: u32 = (tj as u32) * BOX_HEIGHT;
    let rem_y = h - y_min;
    let y_max: u32 = if rem_y < BOX_HEIGHT {
        h
    } else {
        y_min + BOX_HEIGHT
    };
    let w_us = w as usize;
    let mut chunk: Vec<usize> = Vec::new();
    proof {
        broadcast use vstd::seq_lib::group_to_multiset_ensures;
        broadcast use vstd::multiset::group_multiset_axioms;

        vstd::multiset::lemma_multiset_empty_len(chunk@.to_multiset());
        assert forall|p: usize| #[trigger] chunk@.to_multiset().count(p) == 0nat by {}
    }
    let mut x = x_min;
    while x < x_max
        invariant
            x_min <= x <= x_max,
            forall|p: usize| #[trigger] chunk@.to_multiset().count(p) == (
            if in_rect(extent, x_min as int, x as int, y_min as int, y_max as int, p) {
                1nat
            } else {
                0nat
            }),
        decreases x_max - x,
    {
        let mut y = y_min;
        while y < y_max
            invariant
                x_min <= x < x_max,
                y_min <= y <= y_max,
                forall|p: usize| #[trigger] chunk@.to_multiset().count(p) == (
                if in_rect(extent, x_min as int, x as int, y_min as int, y_max as int, p)
                    || in_rect(extent, x as int, x as int + 1, y_min as int, y as int, p) {
                    1nat
                } else {
                    0nat
                }),
            decreases y_max - y,
        {
            proof {
                assert((y as int) * (w as int) < extent.spec_size() && (x as int) + (y as int) * (
                w as int) < extent.spec_size()) by (nonlinear_arith)
                    requires
                        0 <= (x as int) < (w as int),
                        0 <= (y as int) < (h as int),
                        extent.spec_size() == (w as int) * (h as int),
                ;
            }
            let idx: usize = (x as usize) + (y as usize) * w_us;
            let ghost prev = chunk@;
            chunk.push(idx);
            proof {
                broadcast use vstd::seq_lib::group_to_multiset_ensures;
                broadcast use vstd::multiset::group_multiset_axioms;
                broadcast use vstd::multiset::lemma_insert_increases_count_by_1;
                broadcast use vstd::multiset::lemma_insert_other_elements_unchanged;

                lemma_fundamental_div_mod_converse(idx as int, w as int, y as int, x as int);
                assert(chunk@.to_multiset() =~= prev.to_multiset().insert(idx));
                assert forall|p: usize| #[trigger] chunk@.to_multiset().count(p) == (
                if in_rect(extent, x_min as int, x as int, y_min as int, y_max as int, p)
                    || in_rect(extent, x as int, x as int + 1, y_min as int, y as int + 1, p) {
                    1nat
                } else {
                    0nat
                }) by {
                    let c0 = prev.to_multiset().count(p);
                    assert(c0 == (
                    if in_rect(extent, x_min as int, x as int, y_min as int, y_max as int, p)
                        || in_rect(extent, x as int, x as int + 1, y_min as int, y as int, p) {
                        1nat
                    } else {
                        0nat
                    }));
                    if p == idx {
                        assert((idx as int) % (w as int) == x as int);
                        assert((idx as int) / (w as int) == y as int);
                        assert(!in_rect(extent, x_min as int, x as int, y_min as int, y_max as int, idx));
                        assert(!in_rect(extent, x as int, x as int + 1, y_min as int, y as int, idx));
                        assert(c0 == 0);
                        assert(in_rect(extent, x as int, x as int + 1, y_min as int, y as int + 1, idx));
                        assert(prev.to_multiset().insert(idx).count(p) == c0 + 1);
                        assert(chunk@.to_multiset().count(p) == c0 + 1);
                        assert(chunk@.to_multiset().count(p) == (
                        if in_rect(extent, x_min as int, x as int, y_min as int, y_max as int, p)
                            || in_rect(extent, x as int, x as int + 1, y_min as int, y as int + 1, p) {
                            1nat
                        } else {
                            0nat
                        }));
                    } else {
                        assert(prev.to_multiset().insert(idx).count(p) == c0);
                        assert(chunk@.to_multiset().count(p) == c0);
                        lemma_fundamental_div_mod(p as int, w as int);
                        let px = (p as int) % (w as int);
                        let py = (p as int) / (w as int);
                        assert(p as int == (w as int) * py + px);
                        assert(idx as int == (x as int) + (y as int) * (w as int));
                        if px == x as int && py == y as int {
                            assert(p as int == idx as int) by (nonlinear_arith)
                                requires
                                    p as int == (w as int) * py + px,
                                    idx as int == (x as int) + (y as int) * (w as int),
                                    px == x as int,
                                    py == y as int,
                            ;
                            assert(false);
                        }
                        assert(in_rect(extent, x as int, x as int + 1, y_min as int, y as int + 1, p)
                            == in_rect(extent, x as int, x as int + 1, y_min as int, y as int, p));
                        assert(chunk@.to_multiset().count(p) == (
                        if in_rect(extent, x_min as int, x as int, y_min as int, y_max as int, p)
                            || in_rect(extent, x as int, x as int + 1, y_min as int, y as int + 1, p) {
                            1nat
                        } else {
                            0nat
                        }));
                    }
                }
            }
            y += 1;
        }
        x += 1;
    }
    proof {
        broadcast use vstd::seq_lib::group_to_multiset_ensures;
        broadcast use vstd::multiset::group_multiset_axioms;

        // the tile's corner pixel is in the chunk, so the chunk is not empty
        assert((BOX_WIDTH as int) * (ti as int) < w as int);
        assert((BOX_HEIGHT as int) * (tj as int) < h as int);
        let p0i = (x_min as int) + (y_min as int) * (w as int);
        assert(0 <= p0i < (w as int) * (h as int)) by (nonlinear_arith)
            requires
                p0i == (x_min as int) + (y_min as int) * (w as int),
                0 <= (x_min as int) < (w as int),
                0 <= (y_min as int) < (h as int),
        ;
        assert((w as int) * (h as int) <= usize::MAX);
        let p0 = p0i as usize;
        lemma_fundamental_div_mod_converse(p0i, w as int, y_min as int, x_min as int);
        assert(in_rect(extent, x_min as int, x_max as int, y_min as int, y_max as int, p0));
        assert(chunk@.to_multiset().count(p0) == 1);
        assert(chunk@.to_multiset().len() == chunk@.len());
        assert(chunk@.len() > 0);

        assert forall|p: usize| #[trigger] chunk@.to_multiset().count(p) == (
        if tile_covers(extent, t as int, p) {
            1nat
        } else {
            0nat
        }) by {
            let wi = w as int;
            let px = (p as int) % wi;
            let py = (p as int) / wi;
            lemma_mod_bound(p as int, wi);
            lemma_div_pos_is_pos(p as int, wi);
            assert(spec_owner(extent, p) == (py / (BOX_HEIGHT as int)) * tiles_x(extent) + px / (
            BOX_WIDTH as int));
            assert(t as int == (cols as int) * (tj as int) + (ti as int));
            if in_rect(extent, x_min as int, x_max as int, y_min as int, y_max as int, p) {
                lemma_fundamental_div_mod(p as int, wi);
                assert((p as int) < extent.spec_size()) by (nonlinear_arith)
                    requires
                        p as int == wi * py + px,
                        0 <= px < wi,
                        0 <= py < (h as int),
                        extent.spec_size() == wi * (h as int),
                ;
                lemma_fundamental_div_mod_converse(px, BOX_WIDTH as int, ti as int, px - x_min);
                lemma_fundamental_div_mod_converse(py, BOX_HEIGHT as int, tj as int, py - y_min);
                assert(px / (BOX_WIDTH as int) == ti as int);
                assert(py / (BOX_HEIGHT as int) == tj as int);
                assert(spec_owner(extent, p) == t as int) by (nonlinear_arith)
                    requires
                        spec_owner(extent, p) == (py / (BOX_HEIGHT as int)) * tiles_x(extent) + px
                            / (BOX_WIDTH as int),
                        px / (BOX_WIDTH as int) == ti as int,
                        py / (BOX_HEIGHT as int) == tj as int,
                        t as int == (cols as int) * (tj as int) + (ti as int),
                        cols as int == tiles_x(extent),
                ;
                assert(tile_covers(extent, t as int, p));
            }
            if tile_covers(extent, t as int, p) {
                // p is inside the extent, so its row lies below the height
                assert(wi * (h as int) - 1 == ((h as int) - 1) * wi + (wi - 1)) by (nonlinear_arith);
                lemma_fundamental_div_mod_converse(wi * (h as int) - 1, wi, (h as int) - 1, wi - 1);
                lemma_div_is_ordered(p as int, wi * (h as int) - 1, wi);
                assert(py < h as int);
                lemma_dim_tiles(wi, BOX_WIDTH as int);
                lemma_dim_tiles(h as int, BOX_HEIGHT as int);
                lemma_div_pos_is_pos(px, BOX_WIDTH as int);
                lemma_div_pos_is_pos(py, BOX_HEIGHT as int);
                assert(px / (BOX_WIDTH as int) < tiles_x(extent));
                assert(py / (BOX_HEIGHT as int) < tiles_y(extent));
                // the owner decomposition is unique, so the tile coordinates match
                assert(t as int == (py / (BOX_HEIGHT as int)) * tiles_x(extent) + px / (
                BOX_WIDTH as int));
                lemma_fundamental_div_mod_converse(
                    t as int,
                    tiles_x(extent),
                    py / (BOX_HEIGHT as int),
                    px / (BOX_WIDTH as int),
                );
                assert(ti as int == px / (BOX_WIDTH as int));
                assert(tj as int == py / (BOX_HEIGHT as int));
                lemma_fundamental_div_mod(px, BOX_WIDTH as int);
                lemma_mod_bound(px, BOX_WIDTH as int);
                lemma_fundamental_div_mod(py, BOX_HEIGHT as int);
                lemma_mod_bound(py, BOX_HEIGHT as int);
                assert(x_min as int <= px < x_max as int);
                assert(y_min as int <= py < y_max as int);
                assert(in_rect(extent, x_min as int, x_max as int, y_min as int, y_max as int, p));
            }
        }
    }
    chunk
}

/// Work partitioner that splits the pixel grid into fixed-size tiles, clipped
/// at the extent's edges, and hands out one whole tile per chunk in shuffled
/// order, for a spatially coherent "tile reveal" progressive fill.
pub struct BoxChunk {
    cols: u32,
    rows: u32,
    draw_boxes: Vec<Vec<usize>>,
}

impl BoxChunk {
    /// The tiles not yet handed out; the last one leaves first.
    pub closed spec fn boxes(self) -> Seq<Seq<usize>> {
        self.draw_boxes@.map_values(|b: Vec<usize>| b@)
    }

    /// Tile columns of the tiling this partitioner was sized for.
    pub closed spec fn spec_cols(self) -> u32 {
        self.cols
    }

    /// Tile rows of the tiling this partitioner was sized for.
    pub closed spec fn spec_rows(self) -> u32 {
        self.rows
    }

    /// The indices not yet handed out, with multiplicity.
    pub open spec fn pending(self) -> Multiset<usize> {
        flat_multiset(self.boxes())
    }

    /// No work unit is left in the current pass.
    pub open spec fn spec_complete(self) -> bool {
        self.boxes().len() == 0
    }

    /// Every queued tile holds at least one pixel, so a handed-out chunk is
    /// never empty.
    pub open spec fn boxes_nonempty(self) -> bool {
        forall|b: int| 0 <= b < self.boxes().len() ==> (#[trigger] self.boxes()[b]).len() > 0
    }

    /// A fresh partitioner sized for `extent`'s tiling, with no pending work;
    /// `reset` populates it.
    pub fn new(extent: ImageExtent2D) -> (s: BoxChunk)
        ensures
            s.spec_cols() as int == tiles_x(extent),
            s.spec_rows() as int == tiles_y(extent),
            s.boxes() == Seq::<Seq<usize>>::empty(),
            s.spec_complete(),
            s.boxes_nonempty(),
    {
        proof {
            lemma_div_is_ordered(extent.width as int, u32::MAX as int, BOX_WIDTH as int);
            lemma_div_is_ordered(extent.height as int, u32::MAX as int, BOX_HEIGHT as int);
            lemma_div_pos_is_pos(extent.width as int, BOX_WIDTH as int);
            lemma_div_pos_is_pos(extent.height as int, BOX_HEIGHT as int);
        }
        let cols = extent.width / BOX_WIDTH + if extent.width % BOX_WIDTH == 0 {
            0
        } else {
            1
        };
        let rows = extent.height / BOX_HEIGHT + if extent.height % BOX_HEIGHT == 0 {
            0
        } else {
            1
        };
        let s = BoxChunk { cols, rows, draw_boxes: Vec::new() };
        assert(s.boxes() =~= Seq::<Seq<usize>>::empty());
        s
    }

    /// Regenerates the partition: tiles the extent, clips the edge tiles, and
    /// queues one chunk per tile in shuffled order. Afterwards every pixel
    /// index of `extent` is pending exactly once, spread over one chunk per
    /// tile, and work is outstanding whenever the extent has any pixels.
    #[verifier::loop_isolation(false)]
    pub fn reset(&mut self, extent: ImageExtent2D)
        requires
            extent.wf(),
            old(self).spec_cols() as int == tiles_x(extent),
            old(self).spec_rows() as int == tiles_y(extent),
        ensures
            holds_full_partition(extent, final(self).pending()),
            final(self).boxes().len() == tiles_x(extent) * tiles_y(extent),
            extent.spec_size() > 0 ==> !final(self).spec_complete(),
            extent.spec_size() == 0 ==> final(self).spec_complete(),
            final(self).boxes_nonempty(),
            tiled_boxes(extent, final(self).boxes()),
            final(self).spec_cols() == old(self).spec_cols(),
            final(self).spec_rows() == old(self).spec_rows(),
    {
        proof {
            lemma_dim_tiles(extent.width as int, BOX_WIDTH as int);
            lemma_dim_tiles(extent.height as int, BOX_HEIGHT as int);
            if extent.width == 0 || extent.height == 0 {
                assert(tiles_x(extent) * tiles_y(extent) == 0) by (nonlinear_arith)
                    requires
                        tiles_x(extent) == 0 || tiles_y(extent) == 0,
                ;
            } else {
                assert(0 <= tiles_x(extent) * tiles_y(extent) <= extent.spec_size())
                    by (nonlinear_arith)
                    requires
                        1 <= tiles_x(extent) <= extent.width as int,
                        1 <= tiles_y(extent) <= extent.height as int,
                        extent.spec_size() == (extent.width as int) * (extent.height as int),
                ;
            }
        }
        let n_tiles: usize = (self.cols as usize) * (self.rows as usize);
        let mut ids: Vec<usize> = Vec::new();
        let mut i: usize = 0;
        while i < n_tiles
            invariant
                i <= n_tiles,
                ids@ == iota_seq(i as int),
            decreases n_tiles - i,
        {
            ids.push(i);
            i += 1;
            assert(ids@ =~= iota_seq(i as int));
        }
        assert(ids@ =~= full_tile_seq(extent));
        shuffle(&mut ids);
        self.draw_boxes = Vec::new();
        proof {
            broadcast use vstd::seq_lib::group_to_multiset_ensures;
            broadcast use vstd::multiset::group_multiset_axioms;

            assert(self.boxes() =~= Seq::<Seq<usize>>::empty());
            vstd::multiset::lemma_multiset_empty_len(flat_multiset(self.boxes()));
            assert(ids@.subrange(0, 0) =~= Seq::<usize>::empty());
            assert forall|i2: int| 0 <= i2 < ids@.len() implies (#[trigger] ids@[i2] as int)
                < tiles_x(extent) * tiles_y(extent) by {
                assert(ids@.contains(ids@[i2]));
                assert(ids@.to_multiset().count(ids@[i2]) > 0);
                assert(full_tile_seq(extent).to_multiset().count(ids@[i2]) > 0);
                assert(full_tile_seq(extent).contains(ids@[i2]));
                let j = choose|j: int|
                    0 <= j < full_tile_seq(extent).len() && full_tile_seq(extent)[j] == ids@[i2];
                assert(full_tile_seq(extent)[j] == j as usize);
            }
        }
        let mut k: usize = 0;
        while k < n_tiles
            invariant
                k <= n_tiles,
                ids@.len() == n_tiles,
                ids@.to_multiset() == full_tile_seq(extent).to_multiset(),
                forall|i2: int| 0 <= i2 < ids@.len() ==> (#[trigger] ids@[i2] as int) < tiles_x(
                    extent,
                ) * tiles_y(extent),
                self.cols == old(self).spec_cols(),
                self.rows == old(self).spec_rows(),
                self.draw_boxes@.len() == k,
                forall|b: int| 0 <= b < self.boxes().len() ==> (#[trigger] self.boxes()[b]).len()
                    > 0,
                forall|b: int|
                    0 <= b < self.boxes().len() ==> is_tile_chunk(
                        extent,
                        ids@[b] as int,
                        #[trigger] self.boxes()[b],
                    ),
                forall|p: usize| #[trigger] flat_multiset(self.boxes()).count(p) == covered_count(
                    extent,
                    ids@.subrange(0, k as int),
                    p,
                ),
            decreases n_tiles - k,
        {
            let t = ids[k];
            proof {
                assert((t as int) < tiles_x(extent) * tiles_y(extent));
            }
            let chunk = build_tile(extent, t, self.cols);
            let ghost prev_boxes = self.boxes();
            self.draw_boxes.push(chunk);
            proof {
                broadcast use vstd::multiset::group_multiset_axioms;

                assert(self.boxes() =~= prev_boxes.push(chunk@));
                lemma_flat_multiset_push(prev_boxes, chunk@);
                assert(ids@.subrange(0, k as int + 1).drop_last() =~= ids@.subrange(0, k as int));
                assert(ids@.subrange(0, k as int + 1).last() == t);
                assert forall|p: usize| #[trigger] flat_multiset(self.boxes()).count(p)
                    == covered_count(extent, ids@.subrange(0, k as int + 1), p) by {
                    assert(flat_multiset(prev_boxes).count(p) == covered_count(
                        extent,
                        ids@.subrange(0, k as int),
                        p,
                    ));
                    assert(flat_multiset(self.boxes()).count(p) == flat_multiset(prev_boxes).count(
                        p,
                    ) + chunk@.to_multiset().count(p));
                }
                assert forall|b: int| 0 <= b < self.boxes().len() implies is_tile_chunk(
                    extent,
                    ids@[b] as int,
                    #[trigger] self.boxes()[b],
                ) by {
                    if b < k as int {
                        assert(self.boxes()[b] == prev_boxes[b]);
                    } else {
                        assert(self.boxes()[b] == chunk@);
                        assert(ids@[b] == t);
                        assert(is_tile_chunk(extent, t as int, chunk@));
                    }
                }
            }
            k += 1;
        }
        proof {
            assert(ids@.subrange(0, n_tiles as int) =~= ids@);
            assert forall|p: usize| #[trigger]
                flat_multiset(self.boxes()).count(p) == index_count(extent, p) by {
                lemma_covered_count_full(extent, ids@, p);
            }
            assert(self.boxes().len() == tiles_x(extent) * tiles_y(extent));
            assert forall|b: int| 0 <= b < self.boxes().len() implies is_some_tile_chunk(
                extent,
                #[trigger] self.boxes()[b],
            ) by {
                let t2 = ids@[b] as int;
                assert(0 <= t2 < tiles_x(extent) * tiles_y(extent));
                assert(is_tile_chunk(extent, t2, self.boxes()[b]));
            }
            assert(tiled_boxes(extent, self.boxes()));
            if extent.spec_size() > 0 {
                assert(extent.width as int >= 1 && extent.height as int >= 1) by (nonlinear_arith)
                    requires
                        extent.width as int >= 0,
                        extent.height as int >= 0,
                        (extent.width as int) * (extent.height as int) > 0,
                ;
                assert(n_tiles >= 1) by (nonlinear_arith)
                    requires
                        tiles_x(extent) >= 1,
                        tiles_y(extent) >= 1,
                        n_tiles as int == tiles_x(extent) * tiles_y(extent),
                ;
            } else {
                assert(extent.width == 0 || extent.height == 0) by (nonlinear_arith)
                    requires
                        (extent.width as int) * (extent.height as int) == 0,
                ;
                assert(tiles_x(extent) == 0 || tiles_y(extent) == 0);
                assert(n_tiles == 0);
            }
        }
    }

    /// Hands out the next chunk: one whole tile, whose indices leave the
    /// pending set and reappear nowhere else.
    pub fn get_chunk(&mut self) -> (chunk: Vec<usize>)
        requires
            !old(self).spec_complete(),
        ensures
            chunk@ == old(self).boxes().last(),
            final(self).boxes() == old(self).boxes().drop_last(),
            old(self).pending() == final(self).pending().add(chunk@.to_multiset()),
            old(self).boxes_nonempty() ==> chunk@.len() > 0,
            old(self).boxes_nonempty() ==> final(self).boxes_nonempty(),
            final(self).spec_cols() == old(self).spec_cols(),
            final(self).spec_rows() == old(self).spec_rows(),
    {
        let chunk_opt = self.draw_boxes.pop();
        let chunk = chunk_opt.unwrap();
        proof {
            assert(self.boxes() =~= old(self).boxes().drop_last());
            assert(old(self).boxes().drop_last().push(chunk@) =~= old(self).boxes());
            if old(self).boxes_nonempty() {
                assert(old(self).boxes()[old(self).boxes().len() - 1] == chunk@);
                assert forall|b: int|
                    0 <= b < self.boxes().len() implies (#[trigger] self.boxes()[b]).len() > 0 by {
                    assert(self.boxes()[b] == old(self).boxes()[b]);
                }
            }
        }
        chunk
    }

    /// Whether every tile of the current pass has been handed out.
    pub fn is_complete(&self) -> (r: bool)
        ensures
            r == self.spec_complete(),
    {
        self.draw_boxes.len() == 0
    }
}

/// A round of the slice policies: the listed chunks are the successive front
/// slices of `rem`, up to `step` indices each, and `rem_after` is what is
/// left afterwards.
pub open spec fn slice_round(
    rem: Seq<usize>,
    step: int,
    chunks: Seq<Seq<usize>>,
    rem_after: Seq<usize>,
) -> bool
    decreases chunks.len(),
{
    if chunks.len() == 0 {
        rem_after == rem
    } else {
        let k = if rem.len() < step {
            rem.len() as int
        } else {
            step
        };
        &&& chunks.first() == rem.subrange(0, k)
        &&& slice_round(rem.subrange(k, rem.len() as int), step, chunks.drop_first(), rem_after)
    }
}

/// A round of the box policy: the listed chunks are queued tiles taken from
/// the back, and `boxes_after` is what stays queued.
pub open spec fn box_round(
    boxes: Seq<Seq<usize>>,
    chunks: Seq<Seq<usize>>,
    boxes_after: Seq<Seq<usize>>,
) -> bool
    decreases chunks.len(),
{
    if chunks.len() == 0 {
        boxes_after == boxes
    } else {
        &&& boxes.len() > 0
        &&& chunks.first() == boxes.last()
        &&& box_round(boxes.drop_last(), chunks.drop_first(), boxes_after)
    }
}

/// Extending a slice round by one more front slice.
proof fn lemma_slice_round_push(
    rem: Seq<usize>,
    step: int,
    chunks: Seq<Seq<usize>>,
    rem_mid: Seq<usize>,
    c: Seq<usize>,
    rem_after: Seq<usize>,
)
    requires
        step >= 1,
        slice_round(rem, step, chunks, rem_mid),
        c == rem_mid.subrange(
            0,
            if rem_mid.len() < step {
                rem_mid.len() as int
            } else {
                step
            },
        ),
        rem_after == rem_mid.subrange(
            if rem_mid.len() < step {
                rem_mid.len() as int
            } else {
                step
            },
            rem_mid.len() as int,
        ),
    ensures
        slice_round(rem, step, chunks.push(c), rem_after),
    decreases chunks.len(),
{
    if chunks.len() == 0 {
        reveal_with_fuel(slice_round, 2);
        assert(chunks.push(c).first() == c);
        assert(chunks.push(c).drop_first() =~= Seq::<Seq<usize>>::empty());
    } else {
        let k0 = if rem.len() < step {
            rem.len() as int
        } else {
            step
        };
        assert(chunks.push(c).first() == chunks.first());
        assert(chunks.push(c).drop_first() =~= chunks.drop_first().push(c));
        lemma_slice_round_push(
            rem.subrange(k0, rem.len() as int),
            step,
            chunks.drop_first(),
            rem_mid,
            c,
            rem_after,
        );
    }
}

/// Extending a box round by one more tile from the back.
proof fn lemma_box_round_push(
    boxes: Seq<Seq<usize>>,
    chunks: Seq<Seq<usize>>,
    boxes_mid: Seq<Seq<usize>>,
    c: Seq<usize>,
    boxes_after: Seq<Seq<usize>>,
)
    requires
        box_round(boxes, chunks, boxes_mid),
        boxes_mid.len() > 0,
        c == boxes_mid.last(),
        boxes_after == boxes_mid.drop_last(),
    ensures
        box_round(boxes, chunks.push(c), boxes_after),
    decreases chunks.len(),
{
    if chunks.len() == 0 {
        reveal_with_fuel(box_round, 2);
        assert(chunks.push(c).first() == c);
        assert(chunks.push(c).drop_first() =~= Seq::<Seq<usize>>::empty());
    } else {
        assert(chunks.push(c).first() == chunks.first());
        assert(chunks.push(c).drop_first() =~= chunks.drop_first().push(c));
        lemma_box_round_push(boxes.drop_last(), chunks.drop_first(), boxes_mid, c, boxes_after);
    }
}

/// The partitioning policy an image buffer is configured with.
#[derive(Clone, Copy, PartialEq, Eq, Structural, Debug)]
pub enum ChunkStrategy {
    RANDOM,
    LINE,
    BOX,
}

/// The cursor state of one partitioning policy over the undelivered chunks
/// of the current pass.
pub enum ChunkStrategyData {
    RANDOM(RandomChunk),
    LINE(LineChunk),
    BOX(BoxChunk),
}

impl ChunkStrategy {
    /// Builds the cursor state for the chosen policy, sized for `extent`,
    /// with no pending work; the first `reset` populates it.
    pub fn new(strategy: ChunkStrategy, extent: ImageExtent2D) -> (d: ChunkStrategyData)
        ensures
            d.wf_for(extent),
            d.spec_complete(),
            d.chunks_nonempty(),
            match strategy {
                ChunkStrategy::RANDOM => d is RANDOM,
                ChunkStrategy::LINE => d is LINE,
                ChunkStrategy::BOX => d is BOX,
            },
    {
        match strategy {
            ChunkStrategy::RANDOM => ChunkStrategyData::RANDOM(RandomChunk::new()),
            ChunkStrategy::LINE => ChunkStrategyData::LINE(LineChunk::new()),
            ChunkStrategy::BOX => ChunkStrategyData::BOX(BoxChunk::new(extent)),
        }
    }
}

impl ChunkStrategyData {
    /// The indices not yet handed out in the current pass, with multiplicity.
    pub open spec fn pending(self) -> Multiset<usize> {
        match self {
            ChunkStrategyData::RANDOM(s) => s.pending(),
            ChunkStrategyData::LINE(s) => s.pending(),
            ChunkStrategyData::BOX(s) => s.pending(),
        }
    }

    /// No work unit is left in the current pass.
    pub open spec fn spec_complete(self) -> bool {
        match self {
            ChunkStrategyData::RANDOM(s) => s.spec_complete(),
            ChunkStrategyData::LINE(s) => s.spec_complete(),
            ChunkStrategyData::BOX(s) => s.spec_complete(),
        }
    }

    /// The cursor is sized for `e`: the box tiling matches `e`'s tile grid.
    /// The other policies carry no per-extent sizing.
    pub open spec fn wf_for(self, e: ImageExtent2D) -> bool {
        match self {
            ChunkStrategyData::BOX(s) => s.spec_cols() as int == tiles_x(e) && s.spec_rows() as int
                == tiles_y(e),
            _ => true,
        }
    }

    /// No handed-out chunk is ever empty: the box strategy's queued tiles all
    /// hold at least one pixel; the other policies size their chunks by what
    /// is left.
    pub open spec fn chunks_nonempty(self) -> bool {
        match self {
            ChunkStrategyData::BOX(s) => s.boxes_nonempty(),
            _ => true,
        }
    }

    /// Both cursors follow the same policy.
    pub open spec fn same_strategy(self, other: ChunkStrategyData) -> bool {
        match (self, other) {
            (ChunkStrategyData::RANDOM(_), ChunkStrategyData::RANDOM(_)) => true,
            (ChunkStrategyData::LINE(_), ChunkStrategyData::LINE(_)) => true,
            (ChunkStrategyData::BOX(_), ChunkStrategyData::BOX(_)) => true,
            _ => false,
        }
    }

    /// One hand-out: `s1` is `s0` after handing out exactly `chunk` under the
    /// policy both share — the next slice of the remaining indices for the
    /// random and line policies, the last queued tile for the box policy.
    pub open spec fn chunk_step(s0: ChunkStrategyData, s1: ChunkStrategyData, chunk: Seq<usize>) -> bool {
        match (s0, s1) {
            (ChunkStrategyData::RANDOM(r0), ChunkStrategyData::RANDOM(r1)) => {
                &&& chunk == r0.remaining().subrange(0, r0.spec_chunk_len())
                &&& r1.remaining() == r0.remaining().subrange(
                    r0.spec_chunk_len(),
                    r0.remaining().len() as int,
                )
            },
            (ChunkStrategyData::LINE(l0), ChunkStrategyData::LINE(l1)) => {
                &&& chunk == l0.remaining().subrange(0, l0.spec_chunk_len())
                &&& l1.remaining() == l0.remaining().subrange(
                    l0.spec_chunk_len(),
                    l0.remaining().len() as int,
                )
            },
            (ChunkStrategyData::BOX(b0), ChunkStrategyData::BOX(b1)) => {
                &&& b0.boxes().len() > 0
                &&& chunk == b0.boxes().last()
                &&& b1.boxes() == b0.boxes().drop_last()
            },
            _ => false,
        }
    }

    /// `s1` is `s0` after handing out exactly the listed chunks, in order,
    /// under the policy both share.
    pub open spec fn chunk_steps(
        s0: ChunkStrategyData,
        s1: ChunkStrategyData,
        chunks: Seq<Seq<usize>>,
    ) -> bool {
        match (s0, s1) {
            (ChunkStrategyData::RANDOM(r0), ChunkStrategyData::RANDOM(r1)) => slice_round(
                r0.remaining(),
                RANDOM_PIXELS_PER_CHUNK as int,
                chunks,
                r1.remaining(),
            ),
            (ChunkStrategyData::LINE(l0), ChunkStrategyData::LINE(l1)) => slice_round(
                l0.remaining(),
                LINE_PIXELS_PER_CHUNK as int,
                chunks,
                l1.remaining(),
            ),
            (ChunkStrategyData::BOX(b0), ChunkStrategyData::BOX(b1)) => box_round(
                b0.boxes(),
                chunks,
                b1.boxes(),
            ),
            _ => false,
        }
    }

    /// Regenerates the partition for `extent` under the configured policy:
    /// afterwards every pixel index of `extent` is pending exactly once, and
    /// work is outstanding whenever the extent has any pixels. The policy
    /// never changes.
    pub fn reset(&mut self, extent: ImageExtent2D)
        requires
            extent.wf(),
            old(self).wf_for(extent),
        ensures
            holds_full_partition(extent, final(self).pending()),
            extent.spec_size() > 0 ==> !final(self).spec_complete(),
            extent.spec_size() == 0 ==> final(self).spec_complete(),
            final(self).wf_for(extent),
            final(self).chunks_nonempty(),
            final(self).same_strategy(*old(self)),
    {
        match self {
            ChunkStrategyData::RANDOM(strategy) => strategy.reset(extent),
            ChunkStrategyData::LINE(strategy) => strategy.reset(extent),
            ChunkStrategyData::BOX(strategy) => strategy.reset(extent),
        }
    }

    /// Whether every index of the current pass has been handed out.
    pub fn is_complete(&self) -> (r: bool)
        ensures
            r == self.spec_complete(),
    {
        match self {
            ChunkStrategyData::RANDOM(strategy) => strategy.is_complete(),
            ChunkStrategyData::LINE(strategy) => strategy.is_complete(),
            ChunkStrategyData::BOX(strategy) => strategy.is_complete(),
        }
    }

    /// Hands out the next work unit: its indices leave the pending set and
    /// reappear nowhere else, so no index is repeated within a pass. The
    /// policy and its sizing never change.
    pub fn get_chunk(&mut self) -> (chunk: Vec<usize>)
        requires
            !old(self).spec_complete(),
        ensures
            old(self).pending() == final(self).pending().add(chunk@.to_multiset()),
            old(self).chunks_nonempty() ==> chunk@.len() > 0,
            old(self).chunks_nonempty() ==> final(self).chunks_nonempty(),
            final(self).same_strategy(*old(self)),
            forall|e: ImageExtent2D| old(self).wf_for(e) ==> #[trigger] final(self).wf_for(e),
            ChunkStrategyData::chunk_step(*old(self), *final(self), chunk@),
    {
        match self {
            ChunkStrategyData::RANDOM(strategy) => strategy.get_chunk(),
            ChunkStrategyData::LINE(strategy) => strategy.get_chunk(),
            ChunkStrategyData::BOX(strategy) => strategy.get_chunk(),
        }
    }
}

/// One more hand-out extends a hand-out history by one chunk.
pub proof fn lemma_chunk_steps_push(
    s0: ChunkStrategyData,
    mid: ChunkStrategyData,
    s1: ChunkStrategyData,
    chunks: Seq<Seq<usize>>,
    c: Seq<usize>,
)
    requires
        ChunkStrategyData::chunk_steps(s0, mid, chunks),
        ChunkStrategyData::chunk_step(mid, s1, c),
    ensures
        ChunkStrategyData::chunk_steps(s0, s1, chunks.push(c)),
{
    match (s0, mid, s1) {
        (
            ChunkStrategyData::RANDOM(r0),
            ChunkStrategyData::RANDOM(rm),
            ChunkStrategyData::RANDOM(r1),
        ) => {
            lemma_slice_round_push(
                r0.remaining(),
                RANDOM_PIXELS_PER_CHUNK as int,
                chunks,
                rm.remaining(),
                c,
                r1.remaining(),
            );
        },
        (
            ChunkStrategyData::LINE(l0),
            ChunkStrategyData::LINE(lm),
            ChunkStrategyData::LINE(l1),
        ) => {
            lemma_slice_round_push(
                l0.remaining(),
                LINE_PIXELS_PER_CHUNK as int,
                chunks,
                lm.remaining(),
                c,
                l1.remaining(),
            );
        },
        (ChunkStrategyData::BOX(b0), ChunkStrategyData::BOX(bm), ChunkStrategyData::BOX(b1)) => {
            lemma_box_round_push(b0.boxes(), chunks, bm.boxes(), c, b1.boxes());
        },
        _ => {},
    }
}

/// Partition completeness: while a pass runs, the indices already delivered
/// and the indices still pending together hold every pixel index of the
/// extent exactly once; once the strategy reports completion, the delivered
/// chunks alone hold every pixel index exactly once — no gaps, and no
/// duplicates. `reset` establishes the invariant with nothing delivered, and
/// `get_chunk` maintains it by moving its chunk from pending to delivered.
pub proof fn lemma_partition_completeness(
    e: ImageExtent2D,
    s: ChunkStrategyData,
    delivered: Multiset<usize>,
)
    requires
        forall|p: usize| #[trigger] s.pending().count(p) + delivered.count(p) == index_count(e, p),
        s.spec_complete(),
    ensures
        forall|p: usize| #[trigger] delivered.count(p) == index_count(e, p),
{
    broadcast use vstd::seq_lib::group_to_multiset_ensures;
    broadcast use vstd::multiset::group_multiset_axioms;

    assert forall|p: usize| #[trigger] delivered.count(p) == index_count(e, p) by {
        match s {
            ChunkStrategyData::RANDOM(r) => {
                assert(r.remaining() =~= Seq::<usize>::empty());
                vstd::multiset::lemma_multiset_empty_len(r.pending());
            },
            ChunkStrategyData::LINE(l) => {
                assert(l.remaining() =~= Seq::<usize>::empty());
                vstd::multiset::lemma_multiset_empty_len(l.pending());
            },
            ChunkStrategyData::BOX(b) => {
                assert(b.boxes().len() == 0);
            },
        }
        assert(s.pending().count(p) == 0);
    }
}

} // verus!
