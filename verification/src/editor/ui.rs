//! The editor's user interface.
use vstd::prelude::*;

pub mod browser;
pub mod drop;

verus! {

} // verus!
