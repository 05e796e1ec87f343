//! Slot storage for components, with a free list of reusable slots.
use vstd::prelude::*;

verus! {

/// Components live in slots; a removed slot's index is remembered in a free
/// list so insert can hand it out again.
pub struct ComponentArray<T> {
    inner: Vec<Option<T>>,
    ids: Vec<usize>,
    len: usize,
    id: usize,
}

impl<T> ComponentArray<T> {
    /// The slots, in order.
    pub closed spec fn slots(self) -> Seq<Option<T>> {
        self.inner@
    }

    /// The free list of slot indices.
    pub closed spec fn free_ids(self) -> Seq<usize> {
        self.ids@
    }

    #[allow(clippy::new_without_default)]
    pub fn new() -> (c: Self)
        ensures
            c.slots().len() == 0,
            c.free_ids().len() == 0,
    {
        Self { inner: Vec::new(), ids: Vec::new(), len: 0, id: 0 }
    }

    /// With an empty free list the component is pushed into a fresh slot,
    /// and the index recorded before the push (one below the new slot) is
    /// returned; otherwise the free-list entry at position len-1 names the
    /// slot to overwrite and the free list is cut down to that position.
    pub fn insert(&mut self, component: T) -> (r: usize)
        requires
            old(self).slots().len() >= 1,
            old(self).free_ids().len() > 0 ==> old(self).slots().len() - 1 < old(
                self,
            ).free_ids().len() && old(self).free_ids()[old(self).slots().len() - 1] < old(
                self,
            ).slots().len(),
        ensures
            old(self).free_ids().len() == 0 ==> final(self).slots() == old(self).slots().push(
                Some(component),
            ) && r == old(self).slots().len() - 1 && final(self).free_ids() == old(
                self,
            ).free_ids(),
            old(self).free_ids().len() > 0 ==> r == old(self).free_ids()[old(self).slots().len()
                - 1] && final(self).slots() == old(self).slots().update(r as int, Some(component))
                && final(self).free_ids() == old(self).free_ids().subrange(
                0,
                old(self).slots().len() - 1,
            ),
    {
        self.len = self.inner.len() - 1;
        if self.ids.is_empty() {
            self.inner.push(Some(component));
            return self.len;
        }
        self.id = self.ids[self.len];
        self.inner[self.id] = Some(component);
        self.ids.truncate(self.len);
        self.id
    }

    /// Take the component out of a slot, leaving the slot empty.
    pub fn get(&mut self, id: usize) -> (r: Option<T>)
        requires
            id < old(self).slots().len(),
        ensures
            r == old(self).slots()[id as int],
            final(self).slots() == old(self).slots().update(id as int, None::<T>),
            final(self).free_ids() == old(self).free_ids(),
    {
        let mut taken: Option<T> = None;
        core::mem::swap(&mut self.inner[id], &mut taken);
        taken
    }

    /// Put a component back into a slot.
    pub fn put_back(&mut self, id: usize, component: T)
        requires
            id < old(self).slots().len(),
        ensures
            final(self).slots() == old(self).slots().update(id as int, Some(component)),
            final(self).free_ids() == old(self).free_ids(),
    {
        self.inner[id] = Some(component);
    }

    /// Borrow a slot.
    pub fn get_fer(&self, id: usize) -> (r: &Option<T>)
        requires
            id < self.slots().len(),
        ensures
            *r == self.slots()[id as int],
    {
        &self.inner[id]
    }

    /// Borrow a slot mutably.
    pub fn get_mut(&mut self, id: usize) -> (r: &mut Option<T>)
        requires
            id < old(self).slots().len(),
        ensures
            *r == old(self).slots()[id as int],
            final(self).slots() == old(self).slots().update(id as int, *final(r)),
            final(self).free_ids() == old(self).free_ids(),
    {
        &mut self.inner[id]
    }
}

} // verus!
