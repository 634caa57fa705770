//! Synchronizes locally recorded time-tracking intervals with a remote issue
//! tracker's work-log API: parses the tracking tool's input protocol, selects
//! the intervals that represent completed, not-yet-uploaded work, normalizes
//! their timestamps, deduplicates against remote records, and decides which
//! uploads and completion marks to perform.

pub mod config;
pub mod engine;
pub mod instant;
pub mod issue;
pub mod jira;
pub mod json;
pub mod strutil;
pub mod timewarrior;
pub mod version;
