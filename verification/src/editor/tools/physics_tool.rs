//! A tool showing the physics data of selected entities.
use vstd::prelude::*;

use crate::update_layer::Plugin;

verus! {

/// The key of the [`PhysicsToolPlugin`].
pub const PHYSICS_TOOL_PLUGIN_KEY: &'static str = "ivy_editor::tools::physics_tool::PhysicsToolPlugin";

pub struct PhysicsTool {}

pub struct PhysicsToolBundle;

pub struct PhysicsToolPlugin;

impl Plugin for PhysicsToolPlugin {
    /// Its key, and no declarations.
    open spec fn states_declarations(&self) -> bool {
        true
    }

    open spec fn spec_key(&self) -> Seq<char> {
        PHYSICS_TOOL_PLUGIN_KEY@
    }

    fn key(&self) -> (r: String) {
        PHYSICS_TOOL_PLUGIN_KEY.to_owned()
    }

    fn before(&self) -> (r: Vec<String>) {
        let r: Vec<String> = Vec::new();
        assert(r.deep_view() =~= Seq::<Seq<char>>::empty());
        r
    }

    fn after(&self) -> (r: Vec<String>) {
        let r: Vec<String> = Vec::new();
        assert(r.deep_view() =~= Seq::<Seq<char>>::empty());
        r
    }
}

} // verus!
