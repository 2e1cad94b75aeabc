//! Core of a polled to-do display: a fetcher refreshes a lock-guarded task
//! list from a remote source, and a renderer diffs that list against what was
//! last drawn, repainting the bi-stable panel only when something changed.
//!
//! - [`task`]: task records, validation of raw fetch results, and the
//!   list-equality rule that drives change detection.
//! - [`store`]: the shared task store the two loops hand off through.
//! - [`fetcher`]: the policy deciding what one fetch outcome installs.
//! - [`frame`]: the two-plane frame buffer and its bounds-checked drawing.
//! - [`renderer`]: the diff-and-refresh state machine.

pub mod fetcher;
pub mod frame;
pub mod renderer;
pub mod store;
pub mod task;

pub use task::Task;
