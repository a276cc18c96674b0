//! A tool selecting entities by clicking on them.
use flax::Entity;
use vstd::prelude::*;

use crate::editor::plugin::{without, Selection, SetSelection};

verus! {

pub struct SelectTool {}

pub struct SelectToolBundle {}

impl SelectToolBundle {
    pub fn new() -> Self {
        SelectToolBundle {}
    }
}

impl Default for SelectToolBundle {
    fn default() -> Self {
        SelectToolBundle {}
    }
}

/// The edit made by a click of the select tool, given the entity the click
/// hit, if any, and whether shift was held: a hit entity becomes the whole
/// selection, or with shift is toggled in it; a click on nothing clears the
/// selection, or with shift leaves it as it is.
pub fn click_selection(selection: &Selection, hit: Option<Entity>, shift_input: bool) -> (r: Option<SetSelection>)
    ensures
        match hit {
            Some(id) => r matches Some(c) && c.new_selection@ == if !shift_input {
                seq![id]
            } else if selection@.contains(id) {
                without(selection@, id)
            } else {
                selection@.push(id)
            },
            None => if shift_input {
                r is None
            } else {
                r matches Some(c) && c.new_selection@ == Seq::<Entity>::empty()
            },
        },
{
    match hit {
        Some(id) => {
            let new_selection = if shift_input {
                selection.append_toggle(id)
            } else {
                Selection::single(id)
            };
            Some(SetSelection { new_selection })
        },
        None => {
            if shift_input {
                None
            } else {
                Some(SetSelection { new_selection: Selection::default() })
            }
        },
    }
}

} // verus!
