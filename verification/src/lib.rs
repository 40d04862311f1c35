//! Verified core of a terminal monitor for batch-scheduler jobs.
//!
//! The library holds the logic that the monitor's threads and UI drive:
//! parsing of scheduler output, the job-status classification, job tracking,
//! incremental file-tailing state, and the view state applied by the event
//! loop. The surrounding program supplies what the library deliberately does
//! not do itself: process invocation, file reads, threads, and drawing.

pub mod app;
pub mod job_manager;
pub mod layout;
pub mod log_tailer;
pub mod status_monitor;
pub mod text;
pub mod utils;
