//! The plugin that keeps the world transforms of entities up to date.
use vstd::prelude::*;

use crate::update_layer::Plugin;

verus! {

/// The key of the [`TransformUpdatePlugin`].
pub const TRANSFORM_UPDATE_PLUGIN_KEY: &'static str = "ivy_core::transforms::TransformUpdatePlugin";

/// Updates the world transform of every entity from its position and those
/// of its parents, once per tick.
pub struct TransformUpdatePlugin;

impl Plugin for TransformUpdatePlugin {
    /// Its key, and no declarations.
    open spec fn states_declarations(&self) -> bool {
        true
    }

    open spec fn spec_key(&self) -> Seq<char> {
        TRANSFORM_UPDATE_PLUGIN_KEY@
    }

    fn key(&self) -> (r: String) {
        TRANSFORM_UPDATE_PLUGIN_KEY.to_owned()
    }

    fn before(&self) -> (r: Vec<String>) {
        let r: Vec<String> = Vec::new();
        assert(r.deep_view() =~= Seq::<Seq<char>>::empty());
        r
    }

    fn after(&self) -> (r: Vec<String>) {
        let r: Vec<String> = Vec::new();
        assert(r.deep_view() =~= Seq::<Seq<char>>::empty());
        r
    }
}

} // verus!
