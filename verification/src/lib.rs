//! Stepping a chain of hinged pipe links.
//!
//! The first link of the chain is anchored; every other link is advanced
//! from a snapshot of the chain taken before the step, looking at the link
//! before it and, where there is one, the link after it. What a link does
//! given its neighbours (the physics, in floating point) is handed in by the
//! caller as a closure.
use vstd::prelude::*;

pub mod chain;
pub mod controls;
pub mod generate;
