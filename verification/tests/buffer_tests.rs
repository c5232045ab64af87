use raytracer::buffer::ImageBuffer;
use raytracer::chunk::ChunkStrategy;
use raytracer::color::Color;
use raytracer::extent::ImageExtent2D;

#[test]
fn new_buffer_is_empty_and_complete() {
    let e = ImageExtent2D::new(4, 4);
    let b = ImageBuffer::new(e, ChunkStrategy::BOX);
    assert!(b.is_complete());
    assert_eq!(b.framebuffer.len(), 0);
    assert_eq!(b.extent, e);
}

#[test]
fn reset_fills_with_opaque_black() {
    let e = ImageExtent2D::new(3, 2);
    let mut b = ImageBuffer::new(e, ChunkStrategy::LINE);
    b.reset();
    assert_eq!(b.framebuffer.len(), 6);
    for c in &b.framebuffer {
        assert_eq!(*c, Color { r: 0, g: 0, b: 0, a: 255 });
    }
    assert!(!b.is_complete());
}

#[test]
fn bytes_interleaves_rgba_row_major() {
    let e = ImageExtent2D::new(2, 1);
    let mut b = ImageBuffer::new(e, ChunkStrategy::LINE);
    b.reset();
    b.update_pixel(1, Color { r: 10, g: 20, b: 30, a: 40 });
    assert_eq!(b.bytes(), vec![0, 0, 0, 255, 10, 20, 30, 40]);
}

#[test]
fn update_pixel_overwrites_without_blending() {
    let e = ImageExtent2D::new(2, 2);
    let mut b = ImageBuffer::new(e, ChunkStrategy::LINE);
    b.reset();
    b.update_pixel(2, Color { r: 1, g: 2, b: 3, a: 4 });
    b.update_pixel(2, Color { r: 9, g: 8, b: 7, a: 6 });
    assert_eq!(b.framebuffer[2], Color { r: 9, g: 8, b: 7, a: 6 });
    assert_eq!(b.framebuffer[0], Color { r: 0, g: 0, b: 0, a: 255 });
}

#[test]
fn update_pixels_applies_in_order() {
    let e = ImageExtent2D::new(2, 2);
    let mut b = ImageBuffer::new(e, ChunkStrategy::LINE);
    b.reset();
    let updates = vec![
        (0, Color { r: 1, g: 1, b: 1, a: 1 }),
        (3, Color { r: 2, g: 2, b: 2, a: 2 }),
        (0, Color { r: 5, g: 5, b: 5, a: 5 }),
    ];
    b.update_pixels(&updates);
    assert_eq!(b.framebuffer[0], Color { r: 5, g: 5, b: 5, a: 5 });
    assert_eq!(b.framebuffer[3], Color { r: 2, g: 2, b: 2, a: 2 });
    assert_eq!(b.framebuffer[1], Color { r: 0, g: 0, b: 0, a: 255 });
}

#[test]
fn one_line_round_completes_small_extent() {
    // a 4x4 target drains in a single line chunk, and a finished pass
    // leaves the pixels untouched
    let e = ImageExtent2D::new(4, 4);
    let mut b = ImageBuffer::new(e, ChunkStrategy::LINE);
    b.reset();
    assert!(!b.is_complete());
    let chunks = b.get_chunks(1);
    assert_eq!(chunks.len(), 1);
    assert_eq!(chunks[0], (0..16).collect::<Vec<usize>>());
    assert!(b.is_complete());
    let before = b.bytes();
    let chunks2 = b.get_chunks(1);
    assert_eq!(chunks2.len(), 0);
    assert!(b.is_complete());
    assert_eq!(b.bytes(), before);
}

#[test]
fn get_chunks_requests_up_to_count() {
    // 3840 pixels under the line strategy: two 1920-pixel chunks
    let e = ImageExtent2D::new(640, 6);
    let mut b = ImageBuffer::new(e, ChunkStrategy::LINE);
    b.reset();
    let chunks = b.get_chunks(8);
    assert_eq!(chunks.len(), 2);
    assert!(b.is_complete());
}

#[test]
fn get_chunks_partition_over_rounds() {
    let e = ImageExtent2D::new(300, 150);
    let mut b = ImageBuffer::new(e, ChunkStrategy::BOX);
    b.reset();
    let mut all: Vec<usize> = Vec::new();
    while !b.is_complete() {
        for c in b.get_chunks(2) {
            all.extend(c);
        }
    }
    all.sort();
    let expected: Vec<usize> = (0..300 * 150).collect();
    assert_eq!(all, expected);
}

#[test]
fn zero_extent_buffer_has_no_work() {
    let e = ImageExtent2D::new(0, 4);
    let mut b = ImageBuffer::new(e, ChunkStrategy::RANDOM);
    b.reset();
    assert!(b.is_complete());
    assert_eq!(b.bytes(), Vec::<u8>::new());
    assert_eq!(b.get_chunks(4).len(), 0);
}

#[test]
fn extent_size_is_pixel_count() {
    let e = ImageExtent2D::new(1920, 1080);
    assert_eq!(e.size(), 1920 * 1080);
    assert_eq!(e.width, 1920);
    assert_eq!(e.height, 1080);
}

#[test]
fn black_is_opaque() {
    let c = Color::black();
    assert_eq!(c, Color { r: 0, g: 0, b: 0, a: 255 });
}
