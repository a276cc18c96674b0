//! A tool moving and rotating the selected entities.
use flax::Entity;
use vstd::prelude::*;

use crate::editor::plugin::{without, Selection, SetSelection};
use crate::update_layer::Plugin;

verus! {

/// The key of the [`TransformToolPlugin`].
pub const TRANSFORM_TOOL_PLUGIN_KEY: &'static str = "ivy_editor::tools::transform_tool::TransformToolPlugin";

pub struct TransformToolPlugin;

impl Plugin for TransformToolPlugin {
    /// Its key, and no declarations.
    open spec fn states_declarations(&self) -> bool {
        true
    }

    open spec fn spec_key(&self) -> Seq<char> {
        TRANSFORM_TOOL_PLUGIN_KEY@
    }

    fn key(&self) -> (r: String) {
        TRANSFORM_TOOL_PLUGIN_KEY.to_owned()
    }

    fn before(&self) -> (r: Vec<String>) {
        let r: Vec<String> = Vec::new();
        assert(r.deep_view() =~= Seq::<Seq<char>>::empty());
        r
    }

    fn after(&self) -> (r: Vec<String>) {
        let r: Vec<String> = Vec::new();
        assert(r.deep_view() =~= Seq::<Seq<char>>::empty());
        r
    }
}

/// The edit made by a press of the transform tool, given whether the press
/// started moving the manipulator, the entity the press hit, if any, and
/// whether shift was held. A press that starts a move edits nothing. A hit
/// entity becomes the whole selection, or with shift is toggled in it. A
/// press on nothing clears the selection when it holds something, whatever
/// shift says, and otherwise edits nothing.
pub fn press_selection(
    selection: &Selection,
    started_move: bool,
    hit: Option<Entity>,
    shift_input: bool,
) -> (r: Option<SetSelection>)
    ensures
        started_move ==> r is None,
        !started_move ==> match hit {
            Some(id) => r matches Some(c) && c.new_selection@ == if !shift_input {
                seq![id]
            } else if selection@.contains(id) {
                without(selection@, id)
            } else {
                selection@.push(id)
            },
            None => if selection@.len() == 0 {
                r is None
            } else {
                r matches Some(c) && c.new_selection@ == Seq::<Entity>::empty()
            },
        },
{
    if started_move {
        return None;
    }
    match hit {
        Some(id) => {
            let new_selection = if shift_input {
                selection.append_toggle(id)
            } else {
                Selection::single(id)
            };
            Some(SetSelection { new_selection })
        },
        None => {
            if selection.entities().len() == 0 {
                None
            } else {
                Some(SetSelection { new_selection: Selection::default() })
            }
        },
    }
}

/// The space in which the transform tool moves and rotates entities.
#[derive(Debug, Clone, Copy, PartialEq, Eq, Structural)]
pub enum ManipulationSpace {
    Global,
    Local,
    View,
}

/// The space that follows `space`: global, then local, then aligned to the
/// view, then global again.
pub open spec fn next_space(space: ManipulationSpace) -> ManipulationSpace {
    match space {
        ManipulationSpace::Global => ManipulationSpace::Local,
        ManipulationSpace::Local => ManipulationSpace::View,
        ManipulationSpace::View => ManipulationSpace::Global,
    }
}

/// Three presses of the space switch bring the space back to where it was,
/// and fewer do not.
pub proof fn lemma_three_presses_restore_the_space(space: ManipulationSpace)
    ensures
        next_space(next_space(next_space(space))) == space,
        next_space(space) != space,
        next_space(next_space(space)) != space,
{
}

/// The space after a press of the space switch: the next one. A release
/// changes nothing.
pub fn switch_space(space: ManipulationSpace, pressed: bool) -> (r: ManipulationSpace)
    ensures
        !pressed ==> r == space,
        pressed ==> r == next_space(space),
{
    if !pressed {
        return space;
    }
    match space {
        ManipulationSpace::Global => ManipulationSpace::Local,
        ManipulationSpace::Local => ManipulationSpace::View,
        ManipulationSpace::View => ManipulationSpace::Global,
    }
}

/// Whether snapping is on after a press of the snap switch, given whether
/// it was: a press turns it off when on and on when off; a release changes
/// nothing. The snap steps themselves are set by the caller.
pub fn switch_snap(snapping: bool, pressed: bool) -> (r: bool)
    ensures
        r == (snapping != pressed),
{
    if pressed {
        !snapping
    } else {
        snapping
    }
}

} // verus!
