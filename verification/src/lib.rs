//! Spark: a DNS tunnel, its control plane, and the rules behind its user interface.
use vstd::prelude::*;

pub mod guest;
pub mod ipc;
pub mod json;
pub mod platform;
pub mod relay;
pub mod table;
pub mod text;
pub mod tunnel;
pub mod ui;

verus! {

} // verus!
