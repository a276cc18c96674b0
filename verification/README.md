# ivy_core

Core building blocks of the Ivy engine and editor, written in Verus. The
library's functions are verified by Verus against their contracts; where a
result comes from code the library does not see (a channel, a plugin, a
filter, a callback), the contract states what holds whatever that code
answered.

## Layout

- `src/` — the verified library.
  - `update_layer.rs`: ordering plugins by their `before`/`after`
    declarations. `sort_declared_plugins` is a depth-first topological sort
    with cycle detection, proved to succeed exactly when every name is known
    and the dependency graph has no cycle, and then to respect every
    dependency. `sort_plugins` reads the declarations from the plugins and
    returns what `sort_declared_plugins` gives for them; what a plugin
    answers is pinned down only for plugins that state their declarations.
  - `layer/events.rs`: routing events to the callbacks layers register,
    ordered by layer, with listeners that receive every type of event.
  - `events.rs`, `events/dispatcher.rs`: broadcasting events over channels,
    through per-subscriber filters, and dropping subscribers whose receiver
    is gone, as their senders report it. `send` returns the record of its
    handovers and states over it which subscribers were handed the event,
    once each and in order; `send_with` states the same over the log of any
    courier.
  - `resources.rs`: a cache of resources reached through generational
    handles.
  - `logger.rs`: the colored, optionally located lines of the logger.
  - `editor/`: the selection of entities, the undoable history of edits,
    the select and transform tools' handling of clicks and switches, and the
    classification of files in the asset browser.
  - `gizmos.rs`: the index buffers of the arrow and toroid gizmos.
  - `app.rs`: the order in which an application starts its layers.
  - `template.rs`, `editable.rs`, `time.rs`, `math.rs`,
    `transforms.rs`: smaller types of the engine.
- `tests/` — tests of the library on concrete values.
- `app/` — ordinary Rust around the library: the logger installed behind the
  `log` facade, thread-safe senders, conversions to `glam` vectors, the
  slab of layer callbacks, schedules driven by the clock, the application
  loop and file system access.

Calls into outside crates (`flume`, `crossbeam-channel`, `std::sync::mpsc`,
`generational-arena`, `flax`) go through small trusted wrappers whose
contracts state what those crates document.
