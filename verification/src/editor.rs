//! State of the scene editor: the selection of entities, the history of
//! edits, the editor's plugins and its tools.
use vstd::prelude::*;

pub mod plugin;
pub mod tools;
pub mod tools_controller;
pub mod ui;

verus! {

} // verus!
