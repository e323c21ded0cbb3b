//! A differential test runner library: parses a declarative manifest into
//! build and test commands, classifies the output lines of test processes
//! into breadcrumbs and checkpoints, keeps a bounded per-process history
//! trail, and compares checkpoint values positionally across processes to
//! detect semantic divergence.

pub mod compare;
pub mod manifest;
pub mod strutil;
pub mod trail;
