use raytracer::chunk::{ChunkStrategy, ChunkStrategyData};
use raytracer::extent::ImageExtent2D;

fn drain(d: &mut ChunkStrategyData) -> Vec<usize> {
    let mut all: Vec<usize> = Vec::new();
    while !d.is_complete() {
        all.extend(d.get_chunk());
    }
    all
}

fn drain_chunks(d: &mut ChunkStrategyData) -> Vec<Vec<usize>> {
    let mut chunks: Vec<Vec<usize>> = Vec::new();
    while !d.is_complete() {
        chunks.push(d.get_chunk());
    }
    chunks
}

#[test]
fn random_partition_is_complete_and_exact() {
    let e = ImageExtent2D::new(10, 7);
    let mut d = ChunkStrategy::new(ChunkStrategy::RANDOM, e);
    d.reset(e);
    let mut all = drain(&mut d);
    all.sort();
    let expected: Vec<usize> = (0..70).collect();
    assert_eq!(all, expected);
    assert!(d.is_complete());
}

#[test]
fn line_partition_is_complete_and_in_buffer_order() {
    let e = ImageExtent2D::new(10, 7);
    let mut d = ChunkStrategy::new(ChunkStrategy::LINE, e);
    d.reset(e);
    let all = drain(&mut d);
    let expected: Vec<usize> = (0..70).collect();
    assert_eq!(all, expected);
}

#[test]
fn box_partition_is_complete_and_exact() {
    let e = ImageExtent2D::new(300, 150);
    let mut d = ChunkStrategy::new(ChunkStrategy::BOX, e);
    d.reset(e);
    let chunks = drain_chunks(&mut d);
    // 3 tile columns by 2 tile rows
    assert_eq!(chunks.len(), 6);
    for c in &chunks {
        assert!(c.len() <= 128 * 128);
        assert!(!c.is_empty());
    }
    let mut all: Vec<usize> = chunks.into_iter().flatten().collect();
    all.sort();
    let expected: Vec<usize> = (0..300 * 150).collect();
    assert_eq!(all, expected);
}

#[test]
fn box_tiling_clips_edge_tiles() {
    // 130x128 with 128-wide tiles: two tile columns, widths 128 and 2
    let e = ImageExtent2D::new(130, 128);
    let mut d = ChunkStrategy::new(ChunkStrategy::BOX, e);
    d.reset(e);
    let chunks = drain_chunks(&mut d);
    assert_eq!(chunks.len(), 2);
    let mut sizes: Vec<usize> = chunks.iter().map(|c| c.len()).collect();
    sizes.sort();
    assert_eq!(sizes, vec![2 * 128, 128 * 128]);
    let mut all: Vec<usize> = chunks.into_iter().flatten().collect();
    all.sort();
    let expected: Vec<usize> = (0..130 * 128).collect();
    assert_eq!(all, expected);
}

#[test]
fn reset_after_partial_drain_repartitions() {
    // two tiles; hand one out, then reset mid-pass
    let e = ImageExtent2D::new(200, 100);
    let mut d = ChunkStrategy::new(ChunkStrategy::BOX, e);
    d.reset(e);
    assert!(!d.is_complete());
    let _ = d.get_chunk();
    assert!(!d.is_complete());
    d.reset(e);
    assert!(!d.is_complete());
    let mut all = drain(&mut d);
    all.sort();
    let expected: Vec<usize> = (0..200 * 100).collect();
    assert_eq!(all, expected);
}

#[test]
fn reset_after_completion_leaves_work_outstanding() {
    let e = ImageExtent2D::new(8, 8);
    for strategy in [ChunkStrategy::RANDOM, ChunkStrategy::LINE, ChunkStrategy::BOX] {
        let mut d = ChunkStrategy::new(strategy, e);
        // a freshly built cursor has nothing pending until the first reset
        assert!(d.is_complete());
        d.reset(e);
        assert!(!d.is_complete());
        let _ = drain(&mut d);
        assert!(d.is_complete());
        d.reset(e);
        assert!(!d.is_complete());
        let mut all = drain(&mut d);
        all.sort();
        let expected: Vec<usize> = (0..64).collect();
        assert_eq!(all, expected);
    }
}

#[test]
fn random_chunks_are_fixed_size_slices() {
    // 30000 pixels leave one full 20000-pixel chunk and a 10000-pixel rest
    let e = ImageExtent2D::new(200, 150);
    let mut d = ChunkStrategy::new(ChunkStrategy::RANDOM, e);
    d.reset(e);
    let chunks = drain_chunks(&mut d);
    let mut sizes: Vec<usize> = chunks.iter().map(|c| c.len()).collect();
    sizes.sort();
    assert_eq!(sizes, vec![10000, 20000]);
}

#[test]
fn line_chunks_are_scanline_slices() {
    // 3840 pixels leave two 1920-pixel slices in buffer order
    let e = ImageExtent2D::new(640, 6);
    let mut d = ChunkStrategy::new(ChunkStrategy::LINE, e);
    d.reset(e);
    let chunks = drain_chunks(&mut d);
    assert_eq!(chunks.len(), 2);
    assert_eq!(chunks[0], (0..1920).collect::<Vec<usize>>());
    assert_eq!(chunks[1], (1920..3840).collect::<Vec<usize>>());
}

#[test]
fn empty_extent_has_no_work() {
    for strategy in [ChunkStrategy::RANDOM, ChunkStrategy::LINE, ChunkStrategy::BOX] {
        let e = ImageExtent2D::new(0, 5);
        let mut d = ChunkStrategy::new(strategy, e);
        d.reset(e);
        assert!(d.is_complete());
    }
}
