//! Core of a personal task manager: hierarchical tasks with categories,
//! tags and priorities, kept in an in-memory store with exact contracts.
//!
//! The store models the persisted task and category tables as sequences of
//! records keyed by id.  The hierarchy engine (subtree traversal, cascade
//! delete, promote-on-delete, progress aggregation, bulk completion) and the
//! dynamic filter used to list tasks are verified against that model.
//! Timestamps come in as plain values from the caller; date texts are parsed
//! through chrono and fresh ids are drawn through uuid, both behind small
//! trusted wrappers.

pub mod category;
pub mod commands;
pub mod database;
pub mod dates;
pub mod error;
pub mod hierarchy;
pub mod ids;
pub mod laws;
pub mod repository;
pub mod task;
pub mod text;
