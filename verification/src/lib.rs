//! Hierarchical progress tracking: a tree of tasks that report progress and status messages, can
//! be completed and cancelled, and are watched by subscribers.
//!
//! A [`ProgressToken`] is a handle to a task of a [`ProgressTree`]. A task reports its progress,
//! its status message, its completion or its cancellation through its token; what follows for the
//! tasks above it is computed from the tree. Every request that is carried out returns the updates
//! that the subscribers of the task, and of those above it, are to receive.
//!
//! - The progress of a task with children is the sum of theirs, each times its weight.
//! - Progress values are brought into the range from zero to one.
//! - A task that is completed or cancelled ignores further reports.
//! - Cancelling a task cancels all tasks below it.

pub mod aggregation;
pub mod binary64;
pub mod cancellation;
pub mod laws;
pub mod model;
pub mod numbers;
pub mod operations;
pub mod preservation;
pub mod progress;
pub mod rounding;
pub mod token;
pub mod tree;

pub use binary64::Binary64;
pub use model::Notice;
pub use progress::{most_specific, Progress, ProgressError, ProgressUpdate, UpdateEvent, UPDATE_BUFFER};
pub use token::{ChangePoll, CompleteGuard, ProgressStream, ProgressToken};
pub use tree::ProgressTree;
