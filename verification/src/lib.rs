//! Adjusting the scheduling niceness of a Linux autogroup.
//!
//! An autogroup's niceness lives in the pseudo-file `/proc/<pid>/autogroup`,
//! whose text holds a group identifier followed by a niceness value in
//! [-20, 19].  This library parses that record, applies a signed, clamped
//! adjustment to the niceness, and reassembles the record for writing back.
//! Reading and writing the pseudo-file itself is left to the caller, which
//! hands the read outcome in and receives the new content back.

pub mod args;
pub mod nice;
pub mod num;
pub mod record;
