use vstd::prelude::*;

verus! {

/// The leaves of every interface: what a `Dom` knows how to show.
#[derive(Clone, Debug, PartialEq, Eq)]
pub enum Primitive {
    Panel,
    Text(String),
}

/// The handle a `Dom` gives to a primitive it has mounted.
#[derive(Clone, Copy, Debug, Hash, PartialEq, Eq, Structural)]
pub struct PrimitiveId(pub u64);

/// The surface that primitives are mounted on; implemented by users of the library.
///
/// A primitive is mounted either at the top level (`parent` is `None`) or as the
/// next child of a primitive mounted earlier.
pub trait Dom {
    /// Called once before a batch of updates.
    fn start(&mut self) {
    }

    /// Mounts a primitive at the top level.
    fn mount(&mut self, primitive: Primitive) -> PrimitiveId {
        self.mount_as_child(primitive, None)
    }

    /// Mounts a primitive, as the next child of `parent` where there is one.
    fn mount_as_child(&mut self, primitive: Primitive, parent: Option<PrimitiveId>) -> PrimitiveId;

    /// Replaces what a mounted primitive shows.
    fn diff_primitive(&mut self, old: PrimitiveId, new: Primitive);

    /// Announces that the children of `id` are visited next, and gives the parent
    /// under which they are mounted. Unless a surface says otherwise, that parent
    /// is `id` itself and nothing else happens.
    fn get_sub_list(&mut self, id: PrimitiveId) -> (parent: PrimitiveId)
        where
            Self: Sized,
        default_ensures
            parent == id,
            *final(self) == *old(self),
    {
        id
    }

    /// Removes a mounted primitive.
    fn remove(&mut self, id: PrimitiveId);

    /// Called once after a batch of updates.
    fn commit(&mut self) {
    }
}

} // verus!
