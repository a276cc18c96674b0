//! The area of the scene view that accepts dropped assets.
use vstd::prelude::*;

verus! {

pub struct WorldDropArea {}

} // verus!
