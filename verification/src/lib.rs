//! Versioned per-location pandemic statistics: an append-only record store
//! that keeps exactly one "latest" record per location, search with a
//! pagination-independent total count, per-counter diffs between record
//! versions, and gated change notifications.

pub mod api;
pub mod error;
pub mod eventstream;
pub mod models;
pub mod record_dao;
pub mod strutil;
