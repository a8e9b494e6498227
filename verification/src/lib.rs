//! Hotspot analysis for a version-controlled source tree: files are ranked by
//! combining how often history touched them (churn) with how deeply nested
//! their control flow is (complexity).

pub mod analyzer;
pub mod churn;
pub mod files;
pub mod rank;
pub mod repo;
pub mod strutil;
pub mod tree;
