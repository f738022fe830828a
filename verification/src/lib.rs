//! Core of a distributed progressive path tracer.
//!
//! An image is rendered by repeatedly accumulating per-pixel samples into a
//! shared framebuffer.  Work is split into fixed-size tiles which are drained
//! concurrently by local workers and by remote peers discovered over a gossip
//! mesh.  This crate holds the verified heart of that system: the tile
//! partition, the progressive accumulator, the framed wire codec, the peer
//! table and the per-connection session rules.  The floating-point ray-tracing
//! kernel and all socket handling live outside the library and talk to it
//! through plain values.

pub mod accum_image;
pub mod config;
pub mod image;
pub mod math;
pub mod packet;
pub mod peer;
pub mod render_backend;

pub use render_backend::RenderInfo;
pub use render_backend::TileRenderWork;
