//! Core building blocks of the Ivy engine: event broadcasting, layer event
//! routing, plugin ordering, resource storage and editor selection state.
use vstd::prelude::*;

pub mod app;
pub mod editable;
pub mod editor;
pub mod events;
pub mod gizmos;
pub mod layer;
pub mod logger;
pub mod math;
pub mod resources;
pub mod template;
pub mod time;
pub mod transforms;
pub mod update_layer;

pub use app::{PostInitEvent, TickEvent};
pub use events::{EventSender, Events};
pub use logger::Logger;
pub use time::Time;

verus! {

} // verus!
