//! The verified core of a progressive, multi-threaded path tracer.
//!
//! Rendering proceeds tile by tile: the image is cut into square blocks, each
//! block accumulates radiance samples over repeated passes, and a live
//! preview is refreshed after every pass.  This crate holds the parts of that
//! engine that carry proofs: the tile grid and its sample bookkeeping
//! ([`Block`]), the shuffled pending queue and the dispatch decisions of the
//! driving loop ([`Driver`]), the completion registry that ends the render
//! ([`Registry`]), the packing of tone-mapped pixels for display and
//! encoding ([`from_rgb`], [`to_rgb_bytes`]), and the refresh-rate timer
//! ([`Timer`]).  The floating-point ray tracing itself — geometry, materials,
//! camera — lives outside, feeding plain values in and taking plain values
//! out.

pub mod block;
pub mod color;
pub mod driver;
pub mod registry;
pub mod timer;

pub use block::lemma_pass_split;
pub use block::Block;
pub use color::from_rgb;
pub use color::to_rgb_bytes;
pub use driver::blocks_count;
pub use driver::lemma_budget_reached;
pub use driver::lemma_retired_stays_out;
pub use driver::Driver;
pub use registry::lemma_retire_once;
pub use registry::Registry;
pub use timer::advance;
pub use timer::Timer;
