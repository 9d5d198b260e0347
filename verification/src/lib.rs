//! A node-local settings management library: a hierarchical key/value
//! datastore with a two-phase (pending/live) commit discipline, a typed
//! settings model bridged to flat dotted keys, and a configuration-file
//! materializer that renders templates against live settings.

use vstd::prelude::*;

pub mod controller;
pub mod datastore;
pub mod error;
pub mod filesystem;
pub mod json;
pub mod key;
pub mod memory;
pub mod model;
pub mod render;
pub mod scalar;
pub mod serialization;
pub mod strings;

verus! {

/// Scope tag for the two trees the datastore maintains: staged writes
/// (`Pending`) and committed data (`Live`).
#[derive(Clone, Copy, Debug, PartialEq, Eq, Structural)]
pub enum Committed {
    Live,
    Pending,
}

} // verus!
