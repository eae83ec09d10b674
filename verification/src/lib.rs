//! A time-indexed coordinate-frame transform buffer.
//!
//! Named frames form a forest; each directed edge carries a bounded,
//! time-ordered history of rigid-body poses. Lookups compose the transform
//! between any two connected frames at a requested instant, interpolating
//! between samples where needed. A small self-delimited wire format carries
//! updates, queries and replies between processes, and observers receive a
//! notification for every committed update.

pub mod buffer;
pub mod client;
pub mod codec;
pub mod history;
pub mod index;
pub mod math;
pub mod service;
pub mod types;

pub use math::Pose;
pub use types::{StampedIsometry, TfError, TransformType};
