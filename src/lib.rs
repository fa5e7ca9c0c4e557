//! Verified core of a one-shot, additive directory migration between two
//! cloud-sync mounts: path rebasing, catalog building, placeholder
//! materialization with bounded retry, and idempotent per-file copying.

pub mod path;
pub mod stub;
pub mod catalog;
pub mod migrate;
