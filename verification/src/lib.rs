//! Core engine of a terminal download manager: a progress-line parser for the
//! external mirror process, a job queue with FIFO worker scheduling, a history
//! promoter, and the pure helpers (path handling, list navigation, fuzzy
//! ranking) that the interactive shell is built on.

pub mod browse;
pub mod nav;
pub mod paths;
pub mod progress;
pub mod queue;
pub mod text;
