use vstd::prelude::*;

verus! {

/// What slot `i` of `s` holds; slots past the end are empty.
pub open spec fn lookup<T>(s: Seq<Option<T>>, i: int) -> Option<T> {
    if 0 <= i < s.len() {
        s[i]
    } else {
        None
    }
}

/// The slots after placing `v` at slot `i`: grown with empty slots up to `i`
/// where `i` lies past the end, then overwritten at `i`.
pub open spec fn set_spec<T>(s: Seq<Option<T>>, i: nat, v: T) -> Seq<Option<T>> {
    if i < s.len() {
        s.update(i as int, Some(v))
    } else {
        (s + Seq::new((i - s.len()) as nat, |k: int| None::<T>)).push(Some(v))
    }
}

/// Components stored by slot id: a sequence of optional values indexed
/// directly by the id, with empty slots held explicitly.
pub struct SparseStorage<T> {
    slots: Vec<Option<T>>,
}

impl<T> View for SparseStorage<T> {
    type V = Seq<Option<T>>;

    closed spec fn view(&self) -> Seq<Option<T>> {
        self.slots@
    }
}

impl<T> SparseStorage<T> {
    /// An empty storage.
    pub fn new() -> (r: Self)
        ensures
            r@ == Seq::<Option<T>>::empty(),
    {
        SparseStorage { slots: Vec::new() }
    }

    /// Number of slots, empty ones included.
    pub fn len(&self) -> (r: usize)
        ensures
            r == self@.len(),
    {
        self.slots.len()
    }

    /// Places `value` at `slot_id`, growing with empty slots where needed and
    /// overwriting any previous occupant.
    pub fn set(&mut self, slot_id: usize, value: T)
        requires
            slot_id < usize::MAX,
        ensures
            final(self)@ == set_spec(old(self)@, slot_id as nat, value),
    {
        let ghost s = self@;
        if slot_id < self.slots.len() {
            self.slots.set(slot_id, Some(value));
        } else {
            while self.slots.len() < slot_id
                invariant
                    s.len() <= self.slots@.len() <= slot_id,
                    self.slots@ =~= s + Seq::new(
                        (self.slots@.len() - s.len()) as nat,
                        |k: int| None::<T>,
                    ),
                decreases slot_id - self.slots@.len(),
            {
                self.slots.push(None);
            }
            self.slots.push(Some(value));
            assert(self.slots@ =~= set_spec(s, slot_id as nat, value));
        }
    }

    /// The value at `slot_id`, if that slot is occupied.
    pub fn get(&self, slot_id: usize) -> (r: Option<&T>)
        ensures
            match lookup(self@, slot_id as int) {
                Some(v) => r matches Some(x) && *x == v,
                None => r is None,
            },
    {
        if slot_id < self.slots.len() {
            self.slots[slot_id].as_ref()
        } else {
            None
        }
    }

    /// Mutable access to the value at `slot_id`, if that slot is occupied;
    /// only that value can change.
    pub fn get_mut(&mut self, slot_id: usize) -> (r: Option<&mut T>)
        ensures
            match lookup(old(self)@, slot_id as int) {
                Some(v) => r is Some && *r.unwrap() == v && final(self)@ == old(self)@.update(
                    slot_id as int,
                    Some(*final(r.unwrap())),
                ),
                None => r is None && final(self)@ == old(self)@,
            },
    {
        if slot_id < self.slots.len() {
            let slot = &mut self.slots[slot_id];
            slot.as_mut()
        } else {
            None
        }
    }

    /// Empties every slot.
    pub fn clear(&mut self)
        ensures
            final(self)@ == Seq::<Option<T>>::empty(),
            forall|i: int| lookup(final(self)@, i) is None,
    {
        self.slots.clear();
    }
}

/// Placing a value at a slot makes that slot hold it, and leaves every other
/// slot as it was; in particular slots skipped over when growing are empty.
pub proof fn lemma_set_then_get<T>(s: Seq<Option<T>>, i: nat, v: T)
    ensures
        lookup(set_spec(s, i, v), i as int) == Some(v),
        forall|j: int| j != i ==> #[trigger] lookup(set_spec(s, i, v), j) == lookup(s, j),
{
}

} // verus!
