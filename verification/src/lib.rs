//! Automated remediation of unused-resource lint findings.
//!
//! The library covers the pure core of the pipeline: filtering a parsed lint
//! report down to the unused-resource issues, classifying each flagged file
//! into a remediation strategy from its parent directory's name, planning the
//! per-location actions, and the line-targeted rewrite of a text file's bytes.
//! Reading the report, deserializing its markup and touching the filesystem
//! stay outside, in the surrounding binary.

pub mod classify;
pub mod lines;
pub mod pipeline;
pub mod report;
pub mod text;
