//! Synchronization primitives.

pub mod wait;

pub use wait::WaitQueue;
