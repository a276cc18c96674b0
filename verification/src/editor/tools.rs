//! The tools of the editor.
use vstd::prelude::*;

pub mod physics_tool;
pub mod select_tool;
pub mod transform_tool;

verus! {

} // verus!
