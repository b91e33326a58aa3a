use std::collections::HashMap;
use std::collections::hash_map::Entry;
use vstd::prelude::*;

verus! {

broadcast use vstd::std_specs::hash::group_hash_axioms;

/// The name under which a `Components` store keeps a component.
#[derive(Clone, Copy, Debug, Hash, PartialEq, Eq, Structural)]
pub struct ComponentId(pub u64);

/// A store of components under ids that it hands out itself.
///
/// Ids are handed out in increasing order, so an id is never handed out twice.
pub struct Components<C> {
    counter: u64,
    inner: HashMap<u64, C>,
}

impl<C> Components<C> {
    /// The components stored, by the number of their id.
    pub closed spec fn view(&self) -> Map<u64, C> {
        self.inner@
    }

    /// The number the next allocated id carries.
    pub closed spec fn next_id(&self) -> u64 {
        self.counter
    }

    /// Every stored component sits under an id handed out already.
    pub open spec fn wf(&self) -> bool {
        forall|k: u64| #[trigger] self@.contains_key(k) ==> k < self.next_id()
    }

    pub fn new() -> (s: Self)
        ensures
            s@ == Map::<u64, C>::empty(),
            s.next_id() == 0,
            s.wf(),
    {
        Components { inner: HashMap::new(), counter: 0 }
    }

    /// The component stored under `id`, to read or change in place.
    pub fn get(&mut self, id: ComponentId) -> (r: &mut C)
        requires
            old(self)@.contains_key(id.0),
        ensures
            *r == old(self)@[id.0],
            final(self)@ == old(self)@.insert(id.0, *final(r)),
            final(self).next_id() == old(self).next_id(),
            old(self).wf() ==> final(self).wf(),
    {
        match self.inner.entry(id.0) {
            Entry::Occupied(o) => o.into_mut(),
            Entry::Vacant(_) => vstd::pervasive::unreached(),
        }
    }

    /// Removes the component stored under `id` and hands it back.
    pub fn take(&mut self, id: ComponentId) -> (c: C)
        requires
            old(self)@.contains_key(id.0),
        ensures
            c == old(self)@[id.0],
            final(self)@ == old(self)@.remove(id.0),
            final(self).next_id() == old(self).next_id(),
            old(self).wf() ==> final(self).wf(),
    {
        self.inner.remove(&id.0).unwrap()
    }

    /// Takes the component stored under `id` out, hands it to `f` together with
    /// the rest of the store, and stores what `f` gives back under `id` in the
    /// store that `f` gives back.
    pub fn with<F: FnOnce(C, Self) -> (C, Self)>(&mut self, id: ComponentId, f: F)
        requires
            old(self)@.contains_key(id.0),
            forall|c: C, s: Self| #[trigger] f.requires((c, s)),
        ensures
            exists|rest: Self, out: (C, Self)|
                {
                    &&& rest@ == old(self)@.remove(id.0)
                    &&& rest.next_id() == old(self).next_id()
                    &&& #[trigger] f.ensures((old(self)@[id.0], rest), out)
                    &&& final(self)@ == out.1@.insert(id.0, out.0)
                    &&& final(self).next_id() == out.1.next_id()
                },
    {
        let val = self.take(id);
        let mut rest = Components::new();
        std::mem::swap(self, &mut rest);
        let ghost rest_g = rest;
        let out = f(val, rest);
        let ghost out_g = out;
        let (val, mut store) = out;
        store.inner.insert(id.0, val);
        *self = store;
        assert(f.ensures((old(self)@[id.0], rest_g), out_g));
    }

    /// Hands out a fresh id; nothing is stored under it yet.
    pub fn allocate(&mut self) -> (id: ComponentId)
        requires
            old(self).next_id() < u64::MAX,
        ensures
            id.0 == old(self).next_id(),
            final(self).next_id() == old(self).next_id() + 1,
            final(self)@ == old(self)@,
            old(self).wf() ==> final(self).wf() && !old(self)@.contains_key(id.0),
    {
        let id = ComponentId(self.counter);
        self.counter = self.counter + 1;
        proof {
            if old(self).wf() {
                assert(!old(self)@.contains_key(id.0));
                assert forall|k: u64| #[trigger] self@.contains_key(k) implies k < self.next_id() by {
                    assert(old(self)@.contains_key(k));
                }
            }
        }
        id
    }

    /// Stores `component` under `id`, in place of what was there.
    pub fn fill(&mut self, id: ComponentId, component: C)
        ensures
            final(self)@ == old(self)@.insert(id.0, component),
            final(self).next_id() == old(self).next_id(),
            old(self).wf() && id.0 < old(self).next_id() ==> final(self).wf(),
    {
        self.inner.insert(id.0, component);
    }
}

} // verus!
