//! Moderation-report intake and triage core.
//!
//! Users file reports about content or addresses; staff holding the
//! moderation-dashboard permission list, inspect and re-classify them.
//! The library models the report lifecycle: validated creation,
//! read-through caching in front of persistent storage with explicit
//! invalidation on every write, and permission-gated status edits.

pub mod auth;
pub mod cache;
pub mod codec;
pub mod db;
pub mod digits;
pub mod laws;
pub mod service;
pub mod types;

pub use types::DefaultReturn;
pub use types::OffsetQueryProps;
pub use types::PCreateReport;
pub use types::PEditStatus;
pub use types::Report;
pub use types::ReportStatus;
pub use types::ReportType;
