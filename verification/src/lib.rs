//! A small retained-mode UI core: elements describe the wanted shape of the
//! interface, and a `Context` keeps the mounted tree in step with a `Dom`.
mod calls;
mod channel;
mod components;
mod context;
mod dom;
mod element;
mod hooks;
mod tree;

pub use calls::{
    calls_within, components_of, destroyed_by, diffed_by, flushed_by, lemma_calls_concat, lemma_kinds, lemma_no_mounts_concat,
    lemma_removals_before_mounts, lemma_single_call, mounted_by, no_mounts, only_mounts, only_unmounts, primitives_of,
    removals_before_mounts, removed_by, Call,
};
pub use components::{ComponentId, Components};
pub use context::{
    covers, lemma_rerender_roots_apart, lemma_rerender_roots_cover, reached, rerender_roots, round_covered, round_matches,
    under_targets, update_covered, outputs_kept, ComponentHost,
    reuse, Context, ContextError, Envelope, MountedId, MountedRootId, Reuse,
};
pub use dom::{Dom, Primitive, PrimitiveId};
pub use element::{
    lemma_nodes_count_take, node_count, nodes_count, panel, plain, text, ComponentOutput, ComponentOutputIterator, Element,
    ElementInner,
};
pub use hooks::{EffectAction, HookCursor, StateSlot};
pub use tree::{lemma_region_unique, mirrors, mirrors_list, placed, region, tree_wf, Mounted, MountedInner};
