//! Local reverse image search: descriptor matching, descriptor caching,
//! work partitioning and statistical outlier selection.
pub mod descriptor;
pub mod matcher;
pub mod codec;
pub mod cache;
pub mod dispatch;
pub mod outlier;
pub mod files;
pub mod config;
