//! A declarative DNS-record reconciler.
//!
//! The library resolves templated desired records against a variable store,
//! computes a minimal edit plan (create/patch/delete/zone-update) between the
//! desired record set and the record set a remote provider actually holds,
//! and drives a bounded retry loop of fetch-diff-execute rounds.

pub mod record;
pub mod diff;
pub mod store;
pub mod parse;
pub mod resolve;
pub mod reconcile;
pub mod laws;
