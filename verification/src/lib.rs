//! Verified core of a terminal monitor for Ray clusters.
use vstd::prelude::*;

pub mod app;
pub mod clock;
pub mod dashboard;
pub mod metrics;
pub mod ray;
pub mod session;
pub mod text;
pub mod theme;
pub mod ui;

verus! {

} // verus!
