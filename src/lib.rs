//! Lifecycle management for hot-reloadable guest modules driven by
//! simulation events.
use vstd::prelude::*;

pub mod event;
pub mod fault;
pub mod module;
pub mod host;
pub mod lifecycle;
pub mod dispatch;
pub mod laws;

verus! {

} // verus!
