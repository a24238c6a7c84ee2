//! Contiguous-view ring buffers for streaming bulk data between a producer
//! and one or more consumers.
//!
//! Every endpoint sees the live region it was granted as one flat slice,
//! never split across the end of the ring.

pub mod buffer;
pub mod circular_buffer;
pub mod error;
pub mod splittable;
pub mod stream;
pub mod view;

pub use circular_buffer::circular_buffer;
pub use view::{Grant, MapError, View, ViewMut};
