//! Aggregation engine for an RPM/DNF package-metadata layer.
//!
//! The crate canonicalizes raw package-manager output strings into base
//! package names, parses dependency listings, classifies packages into a
//! fixed set of categories, encodes and decodes the on-disk cache document,
//! models the bounded-concurrency fetch pipeline as a step-wise plan, and
//! sequences the privileged update/uninstall operations.  All string logic
//! is specified over `Seq<char>` views and verified; the process and file
//! I/O around it lives outside this crate.

pub mod text;
pub mod normalize;
pub mod pkg;
pub mod classify;
pub mod parse;
pub mod cache;
pub mod fetch;
pub mod listing;
pub mod ops;
