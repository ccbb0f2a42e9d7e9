//! Persistence and integrity layer for a two-level issue-tracking hierarchy:
//! epics own ordered lists of story ids, a single counter issues identifiers
//! for both, and every operation runs as an atomic load / mutate / save cycle
//! against a storage port.

pub mod models;
pub mod table;
pub mod db;
pub mod codec;
