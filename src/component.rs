use vstd::prelude::*;

use crate::entities::EntityHandle;
use crate::storage::{lookup, set_spec, SparseStorage};

verus! {

/// A kind of data that entities carry.
pub trait Component {

}

/// The components of one kind, one at most per entity, stored by entity id.
pub struct ComponentCollection<T: Component> {
    components: SparseStorage<T>,
}

impl<T: Component> View for ComponentCollection<T> {
    type V = Seq<Option<T>>;

    closed spec fn view(&self) -> Seq<Option<T>> {
        self.components@
    }
}

impl<T: Component> Default for ComponentCollection<T> {
    fn default() -> (r: Self)
        ensures
            r@ == Seq::<Option<T>>::empty(),
    {
        ComponentCollection::new()
    }
}

impl<T: Component> ComponentCollection<T> {
    /// An empty collection.
    pub fn new() -> (r: Self)
        ensures
            r@ == Seq::<Option<T>>::empty(),
    {
        ComponentCollection { components: SparseStorage::new() }
    }

    /// Prepares the collection for use; there is nothing to prepare.
    pub fn init(&mut self)
        ensures
            final(self)@ == old(self)@,
    {
    }

    /// Gives `entity` the component `component`, replacing any it had.
    pub fn set(&mut self, entity: EntityHandle, component: T)
        requires
            entity@ < usize::MAX,
        ensures
            final(self)@ == set_spec(old(self)@, entity@ as nat, component),
    {
        self.components.set(entity.id(), component);
    }

    /// The component of `entity`, if it has one.
    pub fn get(&self, entity: EntityHandle) -> (r: Option<&T>)
        ensures
            match lookup(self@, entity@ as int) {
                Some(v) => r matches Some(x) && *x == v,
                None => r is None,
            },
    {
        self.components.get(entity.id())
    }

    /// Mutable access to the component of `entity`, if it has one; only that
    /// component can change.
    pub fn get_mut(&mut self, entity: EntityHandle) -> (r: Option<&mut T>)
        ensures
            match lookup(old(self)@, entity@ as int) {
                Some(v) => r is Some && *r.unwrap() == v && final(self)@ == old(self)@.update(
                    entity@ as int,
                    Some(*final(r.unwrap())),
                ),
                None => r is None && final(self)@ == old(self)@,
            },
    {
        self.components.get_mut(entity.id())
    }

    /// The component in slot `entity_index`, for scans that go by position.
    pub fn at(&self, entity_index: usize) -> (r: Option<&T>)
        ensures
            match lookup(self@, entity_index as int) {
                Some(v) => r matches Some(x) && *x == v,
                None => r is None,
            },
    {
        self.components.get(entity_index)
    }

    /// Removes every component.
    pub fn clear(&mut self)
        ensures
            final(self)@ == Seq::<Option<T>>::empty(),
            forall|i: int| lookup(final(self)@, i) is None,
    {
        self.components.clear();
    }
}

} // verus!
