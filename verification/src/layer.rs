//! Layers and the routing of events to them.
use vstd::prelude::*;

pub mod events;

verus! {

} // verus!
