use raytracer::buffer::{ImageBuffer, RenderState};
use raytracer::chunk::ChunkStrategy;
use raytracer::color::Color;
use raytracer::config::{validate_config, ConfigError};
use raytracer::extent::ImageExtent2D;

#[test]
fn validate_config_accepts_a_working_setup() {
    let r = validate_config(10, 8, 1920, 1080);
    assert_eq!(r, Ok(ImageExtent2D::new(1920, 1080)));
}

#[test]
fn validate_config_rejects_zero_rays() {
    assert_eq!(validate_config(0, 8, 64, 64), Err(ConfigError::NoRays));
}

#[test]
fn validate_config_rejects_zero_threads() {
    assert_eq!(validate_config(10, 0, 64, 64), Err(ConfigError::NoThreads));
}

#[test]
fn validate_config_accepts_empty_extents() {
    assert_eq!(validate_config(1, 1, 0, 4), Ok(ImageExtent2D::new(0, 4)));
}

#[test]
fn first_update_builds_the_frame() {
    let e = ImageExtent2D::new(4, 4);
    let mut st = RenderState::new(ImageBuffer::new(e, ChunkStrategy::LINE));
    assert!(st.changed());
    assert!(st.buffer.is_complete());

    let outstanding = st.begin_update();
    assert!(outstanding);
    assert!(!st.changed());
    assert_eq!(st.buffer.framebuffer.len(), 16);
    assert!(!st.buffer.is_complete());
}

#[test]
fn second_update_reports_no_work_and_keeps_the_frame() {
    // a 4x4 line pass drains in one chunk; the next frame finds nothing
    // outstanding and leaves the pixels alone
    let e = ImageExtent2D::new(4, 4);
    let mut st = RenderState::new(ImageBuffer::new(e, ChunkStrategy::LINE));
    assert!(st.begin_update());
    let chunks = st.buffer.get_chunks(1);
    assert_eq!(chunks.len(), 1);
    let updates: Vec<(usize, Color)> = chunks[0]
        .iter()
        .map(|&i| (i, Color { r: 7, g: 8, b: 9, a: 255 }))
        .collect();
    st.buffer.update_pixels(&updates);
    assert!(st.buffer.is_complete());
    let frame = st.buffer.bytes();

    let outstanding = st.begin_update();
    assert!(!outstanding);
    assert!(st.buffer.is_complete());
    assert_eq!(st.buffer.bytes(), frame);
}

#[test]
fn update_on_empty_extent_finds_no_work() {
    let e = ImageExtent2D::new(0, 4);
    let mut st = RenderState::new(ImageBuffer::new(e, ChunkStrategy::BOX));
    assert!(st.changed());
    assert!(!st.begin_update());
    assert!(!st.changed());
    assert!(st.buffer.is_complete());
}
