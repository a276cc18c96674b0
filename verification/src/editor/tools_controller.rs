//! Equipping the tools of the editor.
use vstd::prelude::*;

use crate::update_layer::Plugin;

verus! {

/// The key of the [`ToolsControllerPlugin`].
pub const TOOLS_CONTROLLER_PLUGIN_KEY: &'static str = "ivy_editor::tools_controller::ToolsControllerPlugin";

pub struct ToolsControllerPlugin;

impl Plugin for ToolsControllerPlugin {
    /// Its key, and no declarations.
    open spec fn states_declarations(&self) -> bool {
        true
    }

    open spec fn spec_key(&self) -> Seq<char> {
        TOOLS_CONTROLLER_PLUGIN_KEY@
    }

    fn key(&self) -> (r: String) {
        TOOLS_CONTROLLER_PLUGIN_KEY.to_owned()
    }

    fn before(&self) -> (r: Vec<String>) {
        let r: Vec<String> = Vec::new();
        assert(r.deep_view() =~= Seq::<Seq<char>>::empty());
        r
    }

    fn after(&self) -> (r: Vec<String>) {
        let r: Vec<String> = Vec::new();
        assert(r.deep_view() =~= Seq::<Seq<char>>::empty());
        r
    }
}

} // verus!
