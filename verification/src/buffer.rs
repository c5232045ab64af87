use vstd::prelude::*;

verus! {

use vstd::multiset::Multiset;
use crate::chunk::{ChunkStrategy, ChunkStrategyData, flat_multiset, holds_full_partition, index_count};
use crate::color::Color;
use crate::extent::ImageExtent2D;

/// The colors after applying the listed `(index, color)` overwrites in order.
pub open spec fn spec_apply(fb: Seq<Color>, updates: Seq<(usize, Color)>) -> Seq<Color>
    decreases updates.len(),
{
    if updates.len() == 0 {
        fb
    } else {
        spec_apply(fb, updates.drop_last()).update(
            updates.last().0 as int,
            updates.last().1,
        )
    }
}

/// The pixel accumulation buffer: one color per pixel of the extent, plus
/// the chunk-strategy cursor that partitions the pixels into work units.
pub struct ImageBuffer {
    pub extent: ImageExtent2D,
    pub framebuffer: Vec<Color>,
    strategy: ChunkStrategyData,
}

impl ImageBuffer {
    /// The extent the buffer was built for.
    pub closed spec fn spec_extent(self) -> ImageExtent2D {
        self.extent
    }

    /// The accumulated pixel colors, in buffer order.
    pub closed spec fn spec_framebuffer(self) -> Seq<Color> {
        self.framebuffer@
    }

    /// The pixel indices the strategy has not yet handed out in this pass.
    pub closed spec fn strategy_pending(self) -> Multiset<usize> {
        self.strategy.pending()
    }

    /// No work unit is left in the current pass.
    pub closed spec fn spec_complete(self) -> bool {
        self.strategy.spec_complete()
    }

    /// The strategy cursor, for stating exactly what each round hands out.
    pub closed spec fn spec_strategy(self) -> ChunkStrategyData {
        self.strategy
    }

    /// The buffer's extent fits machine limits, its strategy is sized for
    /// that extent, and no queued work unit is empty.
    pub closed spec fn wf(self) -> bool {
        self.extent.wf() && self.strategy.wf_for(self.extent) && self.strategy.chunks_nonempty()
    }

    /// A buffer for `extent` under the chosen strategy, with no pixels and no
    /// pending work; the first `reset` populates both.
    pub fn new(extent: ImageExtent2D, strategy: ChunkStrategy) -> (b: ImageBuffer)
        requires
            extent.wf(),
        ensures
            b.wf(),
            b.spec_extent() == extent,
            b.spec_framebuffer() == Seq::<Color>::empty(),
            b.spec_complete(),
            match strategy {
                ChunkStrategy::RANDOM => b.spec_strategy() is RANDOM,
                ChunkStrategy::LINE => b.spec_strategy() is LINE,
                ChunkStrategy::BOX => b.spec_strategy() is BOX,
            },
    {
        ImageBuffer {
            extent,
            framebuffer: Vec::new(),
            strategy: ChunkStrategy::new(strategy, extent),
        }
    }

    /// Discards the accumulated pixels: afterwards the buffer holds one
    /// opaque-black pixel per pixel of the extent, and the strategy holds a
    /// fresh full partition of the index set, with work outstanding whenever
    /// the extent has any pixels.
    pub fn reset(&mut self)
        requires
            old(self).wf(),
        ensures
            final(self).wf(),
            final(self).spec_extent() == old(self).spec_extent(),
            final(self).spec_framebuffer().len() == old(self).spec_extent().spec_size(),
            forall|i: int|
                0 <= i < final(self).spec_framebuffer().len() ==> final(self).spec_framebuffer()[i]
                    == Color::spec_black(),
            holds_full_partition(old(self).spec_extent(), final(self).strategy_pending()),
            old(self).spec_extent().spec_size() > 0 ==> !final(self).spec_complete(),
            old(self).spec_extent().spec_size() == 0 ==> final(self).spec_complete(),
            final(self).spec_strategy().same_strategy(old(self).spec_strategy()),
    {
        self.framebuffer.clear();
        let size = self.extent.size();
        let mut i: usize = 0;
        while i < size
            invariant
                i <= size,
                self.spec_framebuffer().len() == i,
                forall|j: int|
                    0 <= j < i ==> self.spec_framebuffer()[j] == Color::spec_black(),
                self.extent == old(self).spec_extent(),
                self.strategy == old(self).strategy,
                self.extent.wf(),
                size == self.extent.spec_size(),
            decreases size - i,
        {
            self.framebuffer.push(Color::black());
            i += 1;
        }
        let extent = self.extent;
        self.strategy.reset(extent);
    }

    /// Serializes the pixels to row-major bytes, four per pixel: R, G, B, A.
    pub fn bytes(&self) -> (r: Vec<u8>)
        ensures
            r@.len() == 4 * self.spec_framebuffer().len(),
            forall|i: int|
                0 <= i < self.spec_framebuffer().len() ==> {
                    &&& r@[4 * i] == (#[trigger] self.spec_framebuffer()[i]).r
                    &&& r@[4 * i + 1] == self.spec_framebuffer()[i].g
                    &&& r@[4 * i + 2] == self.spec_framebuffer()[i].b
                    &&& r@[4 * i + 3] == self.spec_framebuffer()[i].a
                },
    {
        let mut r: Vec<u8> = Vec::new();
        let mut i: usize = 0;
        while i < self.framebuffer.len()
            invariant
                i <= self.spec_framebuffer().len(),
                r@.len() == 4 * i,
                forall|j: int|
                    0 <= j < i ==> {
                        &&& r@[4 * j] == (#[trigger] self.spec_framebuffer()[j]).r
                        &&& r@[4 * j + 1] == self.spec_framebuffer()[j].g
                        &&& r@[4 * j + 2] == self.spec_framebuffer()[j].b
                        &&& r@[4 * j + 3] == self.spec_framebuffer()[j].a
                    },
            decreases self.spec_framebuffer().len() - i,
        {
            let c = self.framebuffer[i];
            r.push(c.r);
            r.push(c.g);
            r.push(c.b);
            r.push(c.a);
            i += 1;
        }
        r
    }

    /// Overwrites one pixel; nothing is blended, and nothing else changes.
    pub fn update_pixel(&mut self, idx: usize, c: Color)
        requires
            idx < old(self).spec_framebuffer().len(),
        ensures
            final(self).spec_framebuffer() == old(self).spec_framebuffer().update(idx as int, c),
            final(self).spec_extent() == old(self).spec_extent(),
            final(self).strategy_pending() == old(self).strategy_pending(),
            final(self).spec_complete() == old(self).spec_complete(),
            final(self).wf() == old(self).wf(),
    {
        self.framebuffer[idx] = c;
    }

    /// Applies one computed chunk's pixel overwrites, in order; nothing else
    /// changes.
    pub fn update_pixels(&mut self, updates: &Vec<(usize, Color)>)
        requires
            forall|i: int|
                0 <= i < updates@.len() ==> (#[trigger] updates@[i]).0 < old(
                    self,
                ).spec_framebuffer().len(),
        ensures
            final(self).spec_framebuffer() == spec_apply(old(self).spec_framebuffer(), updates@),
            final(self).spec_extent() == old(self).spec_extent(),
            final(self).strategy_pending() == old(self).strategy_pending(),
            final(self).spec_complete() == old(self).spec_complete(),
            final(self).wf() == old(self).wf(),
    {
        proof {
            assert(updates@.subrange(0, 0) =~= Seq::<(usize, Color)>::empty());
        }
        let mut i: usize = 0;
        while i < updates.len()
            invariant
                i <= updates@.len(),
                forall|j: int|
                    0 <= j < updates@.len() ==> (#[trigger] updates@[j]).0 < old(
                        self,
                    ).spec_framebuffer().len(),
                self.spec_framebuffer() == spec_apply(
                    old(self).spec_framebuffer(),
                    updates@.subrange(0, i as int),
                ),
                self.spec_framebuffer().len() == old(self).spec_framebuffer().len(),
                self.extent == old(self).spec_extent(),
                self.strategy_pending() == old(self).strategy_pending(),
                self.spec_complete() == old(self).spec_complete(),
                self.wf() == old(self).wf(),
            decreases updates@.len() - i,
        {
            let (idx, c) = updates[i];
            self.update_pixel(idx, c);
            i += 1;
            proof {
                let pre = updates@.subrange(0, i as int - 1);
                let cur = updates@.subrange(0, i as int);
                assert(cur.drop_last() =~= pre);
                assert(cur.last() == updates@[i as int - 1]);
            }
        }
        proof {
            assert(updates@.subrange(0, updates@.len() as int) =~= updates@);
        }
    }

    /// Whether every work unit of the current pass has been handed out.
    pub fn is_complete(&self) -> (r: bool)
        ensures
            r == self.spec_complete(),
    {
        self.strategy.is_complete()
    }

    /// Hands out the next work unit of the pass: its indices leave the
    /// pending set and reappear nowhere else, so no index repeats within a
    /// pass. The pixels are untouched.
    pub fn get_chunk(&mut self) -> (chunk: Vec<usize>)
        requires
            !old(self).spec_complete(),
        ensures
            old(self).strategy_pending() == final(self).strategy_pending().add(
                chunk@.to_multiset(),
            ),
            old(self).wf() ==> chunk@.len() > 0,
            ChunkStrategyData::chunk_step(
                old(self).spec_strategy(),
                final(self).spec_strategy(),
                chunk@,
            ),
            final(self).spec_strategy().same_strategy(old(self).spec_strategy()),
            final(self).spec_framebuffer() == old(self).spec_framebuffer(),
            final(self).spec_extent() == old(self).spec_extent(),
            old(self).wf() ==> final(self).wf(),
    {
        self.strategy.get_chunk()
    }

    /// Requests up to `count` work units for one round, stopping early once
    /// the pass is complete: together the returned chunks leave the pending
    /// set, and either the pass completed or `count` chunks were returned.
    pub fn get_chunks(&mut self, count: u32) -> (chunks: Vec<Vec<usize>>)
        ensures
            old(self).strategy_pending() == final(self).strategy_pending().add(
                flat_multiset(chunks@.map_values(|c: Vec<usize>| c@)),
            ),
            final(self).spec_complete() || chunks@.len() == count as int,
            ChunkStrategyData::chunk_steps(
                old(self).spec_strategy(),
                final(self).spec_strategy(),
                chunks@.map_values(|c: Vec<usize>| c@),
            ),
            old(self).wf() ==> forall|i: int|
                0 <= i < chunks@.len() ==> (#[trigger] chunks@[i])@.len() > 0,
            final(self).spec_framebuffer() == old(self).spec_framebuffer(),
            final(self).spec_extent() == old(self).spec_extent(),
            old(self).wf() ==> final(self).wf(),
    {
        broadcast use vstd::multiset::group_multiset_axioms;

        let mut chunks: Vec<Vec<usize>> = Vec::new();
        proof {
            assert(chunks@.map_values(|c: Vec<usize>| c@) =~= Seq::<Seq<usize>>::empty());
            vstd::multiset::lemma_multiset_empty_len(
                flat_multiset(chunks@.map_values(|c: Vec<usize>| c@)),
            );
            assert(old(self).strategy_pending() =~= self.strategy_pending().add(
                flat_multiset(chunks@.map_values(|c: Vec<usize>| c@)),
            ));
            assert(ChunkStrategyData::chunk_steps(
                old(self).spec_strategy(),
                self.spec_strategy(),
                chunks@.map_values(|c: Vec<usize>| c@),
            ));
        }
        let mut i: u32 = 0;
        while i < count
            invariant
                i <= count,
                old(self).strategy_pending() == self.strategy_pending().add(
                    flat_multiset(chunks@.map_values(|c: Vec<usize>| c@)),
                ),
                self.spec_complete() || chunks@.len() == i as int,
                ChunkStrategyData::chunk_steps(
                    old(self).spec_strategy(),
                    self.spec_strategy(),
                    chunks@.map_values(|c: Vec<usize>| c@),
                ),
                old(self).wf() ==> forall|j: int|
                    0 <= j < chunks@.len() ==> (#[trigger] chunks@[j])@.len() > 0,
                self.spec_framebuffer() == old(self).spec_framebuffer(),
                self.extent == old(self).spec_extent(),
                old(self).wf() ==> self.wf(),
            decreases count - i,
        {
            if !self.is_complete() {
                let ghost chunks_prev = chunks@.map_values(|cc: Vec<usize>| cc@);
                let ghost strat_prev = self.spec_strategy();
                let c = self.get_chunk();
                chunks.push(c);
                proof {
                    assert(chunks@.map_values(|cc: Vec<usize>| cc@) =~= chunks_prev.push(c@));
                    crate::chunk::lemma_flat_multiset_push(chunks_prev, c@);
                    assert(old(self).strategy_pending() =~= self.strategy_pending().add(
                        flat_multiset(chunks@.map_values(|cc: Vec<usize>| cc@)),
                    ));
                    let f2 = chunks@.map_values(|cc: Vec<usize>| cc@);
                    assert(f2.drop_last() =~= chunks_prev);
                    assert(f2.last() == c@);
                    assert(ChunkStrategyData::chunk_steps(
                        old(self).spec_strategy(),
                        strat_prev,
                        f2.drop_last(),
                    ));
                    assert(ChunkStrategyData::chunk_step(strat_prev, self.spec_strategy(), c@));
                    crate::chunk::lemma_chunk_steps_push(
                        old(self).spec_strategy(),
                        strat_prev,
                        self.spec_strategy(),
                        chunks_prev,
                        c@,
                    );
                    assert(ChunkStrategyData::chunk_steps(
                        old(self).spec_strategy(),
                        self.spec_strategy(),
                        f2,
                    ));
                }
            }
            i += 1;
        }
        chunks
    }
}

/// Partition completeness, seen from the buffer: while a pass runs, the
/// indices already delivered and the indices still pending together hold
/// every pixel index of the extent exactly once; once the buffer reports
/// completion, the delivered chunks alone hold every pixel index exactly
/// once — no gaps, and no duplicates. `reset` establishes the invariant with
/// nothing delivered, and `get_chunk` and `get_chunks` maintain it by moving
/// their chunks from pending to delivered.
pub proof fn lemma_buffer_partition_completeness(
    e: ImageExtent2D,
    b: ImageBuffer,
    delivered: Multiset<usize>,
)
    requires
        forall|p: usize| #[trigger] b.strategy_pending().count(p) + delivered.count(p)
            == index_count(e, p),
        b.spec_complete(),
    ensures
        forall|p: usize| #[trigger] delivered.count(p) == index_count(e, p),
{
    assert forall|p: usize| #[trigger] b.strategy.pending().count(p) + delivered.count(p)
        == index_count(e, p) by {
        assert(b.strategy_pending().count(p) + delivered.count(p) == index_count(e, p));
    }
    crate::chunk::lemma_partition_completeness(e, b.strategy, delivered);
}

/// The per-frame render state: the pixel buffer together with the dirty
/// flag that invalidates the accumulated frame when the configuration
/// changes.
pub struct RenderState {
    pub buffer: ImageBuffer,
    changed: bool,
}

impl RenderState {
    /// The buffer, for stating what a frame step does to it.
    pub closed spec fn spec_buffer(self) -> ImageBuffer {
        self.buffer
    }

    /// Whether the accumulated frame is invalid and must be discarded.
    pub closed spec fn spec_changed(self) -> bool {
        self.changed
    }

    /// Fresh state around a buffer, marked changed, so the first frame
    /// builds the first partition.
    pub fn new(buffer: ImageBuffer) -> (s: RenderState)
        ensures
            s.spec_buffer() == buffer,
            s.spec_changed(),
    {
        RenderState { buffer, changed: true }
    }

    /// Whether the configuration changed since the last frame began.
    pub fn changed(&self) -> (r: bool)
        ensures
            r == self.spec_changed(),
    {
        self.changed
    }

    /// The decisions that open one update round: a set dirty flag discards
    /// the accumulated pixels and restarts the pass; the flag is cleared
    /// unconditionally; the result says whether work was outstanding at
    /// entry, so the host knows to re-derive its display texture.
    pub fn begin_update(&mut self) -> (outstanding: bool)
        requires
            old(self).spec_buffer().wf(),
        ensures
            final(self).spec_buffer().wf(),
            !final(self).spec_changed(),
            final(self).spec_buffer().spec_extent() == old(self).spec_buffer().spec_extent(),
            outstanding == (if old(self).spec_changed() {
                old(self).spec_buffer().spec_extent().spec_size() > 0
            } else {
                !old(self).spec_buffer().spec_complete()
            }),
            outstanding == !final(self).spec_buffer().spec_complete(),
            old(self).spec_changed() ==> {
                let before = old(self).spec_buffer();
                let after = final(self).spec_buffer();
                &&& after.spec_framebuffer().len() == before.spec_extent().spec_size()
                &&& (forall|i: int|
                    0 <= i < after.spec_framebuffer().len() ==> after.spec_framebuffer()[i]
                        == Color::spec_black())
                &&& holds_full_partition(before.spec_extent(), after.strategy_pending())
                &&& after.spec_strategy().same_strategy(before.spec_strategy())
            },
            !old(self).spec_changed() ==> final(self).spec_buffer() == old(self).spec_buffer(),
    {
        if self.changed {
            self.buffer.reset();
        }
        self.changed = false;
        !self.buffer.is_complete()
    }
}

} // verus!
