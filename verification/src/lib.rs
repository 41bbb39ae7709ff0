//! Verified core of a local usage-analytics engine for opencode databases.
pub mod text;
pub mod agents;
pub mod sources;
pub mod stats;
pub mod db;
pub mod cache;
pub mod parts;
pub mod session_detail;
pub mod sessions;
pub mod pricing;
