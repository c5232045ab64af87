pub mod buffer;
pub mod chunk;
pub mod color;
pub mod config;
pub mod extent;
