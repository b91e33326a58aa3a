//! Where the hooks of a component stand while it renders.
//!
//! A component calls its hooks in the same order on every render; each call
//! takes the next slot. The first render creates the slots, later renders read
//! them back in order.
use vstd::prelude::*;

verus! {

/// Where `use_state` keeps its value.
#[derive(Clone, Copy, Debug, PartialEq, Eq, Structural)]
pub struct StateSlot {
    /// The value is created now, from the default, and stored after the others.
    pub fresh: bool,
    /// The slot read back on a later render, and the slot that the setter handed
    /// out by this call writes to.
    pub index: usize,
}

/// What `use_effect` does with the effect it is given.
#[derive(Clone, Copy, Debug, PartialEq, Eq, Structural)]
pub enum EffectAction {
    /// First render: store the effect after the others.
    Push,
    /// The dependencies did not change: drop the new effect.
    Keep,
    /// Run the clean-up of the effect in this slot and put the new effect there.
    Replace(usize),
}

/// The position of the hooks of one render of one component.
pub struct HookCursor {
    init: bool,
    state_selector: usize,
    effect_selector: usize,
}

impl HookCursor {
    /// Whether this is the first render of the component.
    pub closed spec fn is_first(&self) -> bool {
        self.init
    }

    /// The slot the next `use_state` takes.
    pub closed spec fn state_index(&self) -> usize {
        self.state_selector
    }

    /// The slot the next `use_effect` compares with.
    pub closed spec fn effect_index(&self) -> usize {
        self.effect_selector
    }

    /// The hooks of a first render, before any is called.
    pub fn render_first() -> (c: Self)
        ensures
            c.is_first(),
            c.state_index() == 0,
            c.effect_index() == 0,
    {
        HookCursor { init: true, state_selector: 0, effect_selector: 0 }
    }

    /// The hooks of a later render, before any is called.
    pub fn update() -> (c: Self)
        ensures
            !c.is_first(),
            c.state_index() == 0,
            c.effect_index() == 0,
    {
        HookCursor { init: false, state_selector: 0, effect_selector: 0 }
    }

    /// Whether this is the first render of the component.
    pub fn first(&self) -> (b: bool)
        ensures
            b == self.is_first(),
    {
        self.init
    }

    /// The slot of the state that the next `use_state` reads.
    pub fn state_slot(&self) -> (i: usize)
        ensures
            i == self.state_index(),
    {
        self.state_selector
    }

    /// The slot of the stored effect that the next `use_effect` compares with.
    pub fn effect_slot(&self) -> (i: usize)
        ensures
            i == self.effect_index(),
    {
        self.effect_selector
    }

    /// A call of `use_state`: on the first render the value is created, later
    /// it is read back from the next slot; either way the slot is the next one.
    pub fn use_state(&mut self) -> (slot: StateSlot)
        requires
            old(self).state_index() < usize::MAX,
        ensures
            slot.fresh == old(self).is_first(),
            slot.index == old(self).state_index(),
            final(self).state_index() == old(self).state_index() + 1,
            final(self).effect_index() == old(self).effect_index(),
            final(self).is_first() == old(self).is_first(),
    {
        let slot = StateSlot { fresh: self.init, index: self.state_selector };
        self.state_selector = self.state_selector + 1;
        slot
    }

    /// A call of `use_effect`. `same_deps` is `Some(equal)` when a stored effect
    /// with dependencies of the same type is in the slot and new dependencies
    /// are given, and `None` otherwise.
    ///
    /// On the first render the effect is stored. Later, the stored effect stays
    /// when the dependencies are equal and is replaced otherwise; a later render
    /// moves on by one state slot, not by one effect slot.
    pub fn use_effect(&mut self, same_deps: Option<bool>) -> (action: EffectAction)
        requires
            !old(self).is_first() ==> old(self).state_index() < usize::MAX,
        ensures
            old(self).is_first() ==> action == EffectAction::Push && *final(self) == *old(self),
            !old(self).is_first() ==> {
                &&& action == (if same_deps == Some(true) {
                    EffectAction::Keep
                } else {
                    EffectAction::Replace(old(self).effect_index())
                })
                &&& final(self).state_index() == old(self).state_index() + 1
                &&& final(self).effect_index() == old(self).effect_index()
                &&& final(self).is_first() == old(self).is_first()
            },
    {
        if self.init {
            EffectAction::Push
        } else {
            let action = match same_deps {
                Some(true) => EffectAction::Keep,
                _ => EffectAction::Replace(self.effect_selector),
            };
            self.state_selector = self.state_selector + 1;
            action
        }
    }
}

} // verus!
