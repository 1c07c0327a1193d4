//! Device package-state snapshot and reconciliation engine.
//!
//! Captures the package state of every user profile on a managed device
//! into a durable snapshot record, and later computes the ordered list of
//! state-transition commands needed to bring a live device back to a
//! previously captured snapshot.

pub mod builder;
pub mod codec;
pub mod data;
pub mod plan;
