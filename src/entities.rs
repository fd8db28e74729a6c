use vstd::prelude::*;

verus! {

/// Identity of an entity, a small non-negative integer owned by whatever
/// creates entities; the storages here only use it as a slot id.
#[derive(Clone, Copy, Debug, PartialEq, Eq, Structural, Hash)]
pub struct EntityHandle {
    id: usize,
}

impl View for EntityHandle {
    type V = usize;

    closed spec fn view(&self) -> usize {
        self.id
    }
}

impl EntityHandle {
    /// The entity with identity number `id`.
    pub fn new(id: usize) -> (r: Self)
        ensures
            r@ == id,
    {
        EntityHandle { id }
    }

    /// The entity's identity number.
    pub fn id(&self) -> (r: usize)
        ensures
            r == self@,
    {
        self.id
    }
}

} // verus!
