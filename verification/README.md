# vdom

A small retained-mode UI core with hooks. Elements describe the wanted shape of
an interface; a `Context` mounts them on a `Dom`, keeps the mounted tree, and
brings it in line with what components render when their state changes.

Layout:

- `src/` is the library, verified with Verus: the mounted tree and its laws
  (`tree.rs`), mounting, diffing, unmounting and re-rendering (`context.rs`),
  the record of the calls made on a `Dom` (`calls.rs`), elements and component
  output (`element.rs`), the position of hooks during a render (`hooks.rs`), a
  store of components under fresh ids (`components.rs`), and the queue of state
  updates (`channel.rs`).
- `app/` is the component runtime around it, in plain Rust: component functions
  with their props behind trait objects, the `Fctx` hooks that keep state and
  effects as `dyn Any`, and the `ComponentHost` that the core calls.
- `tests/` exercises both against a logging `Dom`.
