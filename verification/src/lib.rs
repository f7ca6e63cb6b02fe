//! In-place consolidation engine for batches of (key, weight) change records.
//!
//! A batch is canonical when its keys are strictly ascending and no weight is
//! zero. The engine sorts a batch, folds the weights of equal keys together,
//! and drops the keys whose folded weight is zero, across several physical
//! layouts: a single array of records, or parallel key and weight arrays.
//! The sort kernel, the offset-aware filter and the multi-column dedup
//! primitives that it is built from are exposed on their own.
//!
//! Beside the engine stand the small decidable parts of the build service
//! that shares its repository: the project-status column codec, the pipeline
//! file paths, the request and scheduler decisions, and the startup-log scan.
//! The service's I/O lives outside the library and calls in for these.

pub mod order;
pub mod payload;
pub mod quicksort;
pub mod sums;
pub mod consolidate;
pub mod paired;
pub mod utils;
pub mod laws;
pub mod status;
pub mod runner;
pub mod logscan;
pub mod scheduler;

pub use consolidate::{consolidate, consolidate_from, consolidate_slice};
pub use order::{KeyPair, TotalOrder, TotalPreorder};
pub use paired::{consolidate_paired_slices, consolidate_payload_from};
pub use payload::Payload;
pub use quicksort::quicksort;
pub use runner::{PipelineId, RunnerConfig};
pub use status::ProjectStatus;
pub use logscan::{scan_log_line, LogEvent};
pub use scheduler::{check_pipeline_request, exit_action, should_cancel_job, ExitAction, JobStage, RequestCheck};
pub use utils::{dedup_payload_starting_at, retain_starting_at, NonZeroWeight, Predicate, SameKey};
