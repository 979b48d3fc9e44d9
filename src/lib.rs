//! Core of a small package manager: manifests, dependency resolution,
//! install planning and the per-run install ledger.
pub mod ledger;
pub mod package;
pub mod plan;
pub mod resolve;
