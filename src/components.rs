use std::collections::HashMap;
use vstd::prelude::*;
use vstd::set_lib::{lemma_int_range, lemma_len_subset, lemma_map_size, set_int_range};

use crate::handle::{handle_text, parse_spec, lemma_text_round_trip, ComponentHandle};

verus! {

broadcast use vstd::std_specs::hash::group_hash_axioms;

/// Whether no two entries of a sequence of (id, value) pairs share an id.
pub open spec fn distinct_ids<T>(s: Seq<(u128, T)>) -> bool {
    forall|i: int, j: int| 0 <= i < s.len() && 0 <= j < s.len() && i != j ==> s[i].0 != s[j].0
}

/// Whether some entry of `s` carries the id `id`.
pub open spec fn has_id<T>(s: Seq<(u128, T)>, id: u128) -> bool {
    exists|i: int| 0 <= i < s.len() && s[i].0 == id
}

/// The (id, value) pairs that a sequence of (handle, value) pairs stands for.
pub open spec fn pairs_view<T>(v: Seq<(ComponentHandle<T>, T)>) -> Seq<(u128, T)> {
    v.map_values(|p: (ComponentHandle<T>, T)| (p.0@, p.1))
}

/// Why a sequence of (handle, value) pairs cannot become a collection.
#[derive(Clone, Copy, Debug, PartialEq, Eq, Structural)]
pub enum CollectionError {
    /// Two entries carry the same handle.
    DuplicateHandle,
}

/// Components addressed by handles that the collection itself issues: a dense,
/// insertion-ordered sequence of (handle, value) pairs, and an index from each
/// handle's id to its position, which is derived from the sequence alone.
pub struct Components<T> {
    items: Vec<(ComponentHandle<T>, T)>,
    index: HashMap<u128, usize>,
    /// The id that `add` tries first; any id already taken is passed over.
    next_id: u128,
}

impl<T> View for Components<T> {
    type V = Seq<(u128, T)>;

    closed spec fn view(&self) -> Seq<(u128, T)> {
        pairs_view(self.items@)
    }
}

impl<T> Components<T> {
    /// The index holds exactly the id of each entry, mapped to its position.
    pub closed spec fn index_consistent(&self) -> bool {
        &&& forall|i: int|
            0 <= i < self.items@.len() ==> {
                &&& self.index@.contains_key(#[trigger] self.items@[i].0@)
                &&& self.index@[self.items@[i].0@] == i
            }
        &&& forall|id: u128| #[trigger]
            self.index@.contains_key(id) ==> {
                &&& self.index@[id] < self.items@.len()
                &&& self.items@[self.index@[id] as int].0@ == id
            }
    }

    /// Well-formedness: the index agrees with the sequence, and ids are distinct.
    pub open spec fn wf(&self) -> bool {
        &&& self.index_consistent()
        &&& distinct_ids(self@)
    }

    /// Position of the entry carrying `id`, in a well-formed collection.
    pub open spec fn position_of(&self, id: u128) -> int {
        choose|i: int| 0 <= i < self@.len() && self@[i].0 == id
    }

    proof fn lemma_view_facts(&self)
        ensures
            self@.len() == self.items@.len(),
            forall|i: int|
                0 <= i < self.items@.len() ==> #[trigger] self@[i] == (
                self.items@[i].0@,
                self.items@[i].1,
            ),
    {
    }

    /// An index that agrees with the sequence makes the ids distinct.
    proof fn lemma_consistent_distinct(&self)
        requires
            self.index_consistent(),
        ensures
            distinct_ids(self@),
            forall|id: u128| self.index@.contains_key(id) <==> has_id(self@, id),
    {
        self.lemma_view_facts();
        assert forall|id: u128| self.index@.contains_key(id) <==> has_id(self@, id) by {
            if self.index@.contains_key(id) {
                let p = self.index@[id] as int;
                assert(self@[p].0 == id);
            }
            if has_id(self@, id) {
                let i = choose|i: int| 0 <= i < self@.len() && self@[i].0 == id;
                assert(self.index@.contains_key(self.items@[i].0@));
            }
        }
    }

    /// In a well-formed collection, the position of an id held is where it is.
    proof fn lemma_position(&self, id: u128)
        requires
            self.wf(),
            self.index@.contains_key(id),
        ensures
            self.position_of(id) == self.index@[id] as int,
            0 <= self.position_of(id) < self@.len(),
            self@[self.position_of(id)].0 == id,
    {
        self.lemma_view_facts();
        let p = self.index@[id] as int;
        assert(self@[p].0 == id);
        let q = self.position_of(id);
        assert(self@[q].0 == id);
    }

    /// Among ids `0..=n`, where `n` is the number of entries, one is free.
    proof fn lemma_free_id_below(&self, n: nat)
        requires
            self.index_consistent(),
            n == self.items@.len(),
            n < 0x1_0000_0000_0000_0000,
        ensures
            exists|j: int| 0 <= j <= n && !#[trigger] self.index@.contains_key(j as u128),
    {
        if forall|j: int| 0 <= j <= n ==> #[trigger] self.index@.contains_key(j as u128) {
            // Then the index would map n + 1 ids one-to-one into n positions.
            let xs = set_int_range(0, n as int + 1);
            let ys = set_int_range(0, n as int);
            let f = |j: int| self.index@[j as u128] as int;
            lemma_int_range(0, n as int + 1);
            lemma_int_range(0, n as int);
            assert(vstd::relations::injective_on(f, xs)) by {
                assert forall|a: int, b: int|
                    xs.contains(a) && xs.contains(b) && #[trigger] f(a) == #[trigger] f(b) implies a
                    == b by {
                    assert(self.index@.contains_key(a as u128));
                    assert(self.index@.contains_key(b as u128));
                }
            }
            assert(xs.map(f).subset_of(ys)) by {
                assert forall|y: int| #[trigger] xs.map(f).contains(y) implies ys.contains(y) by {
                    let a = choose|a: int| xs.contains(a) && f(a) == y;
                    assert(self.index@.contains_key(a as u128));
                }
            }
            lemma_map_size(xs, xs.map(f), f);
            lemma_len_subset(xs.map(f), ys);
        }
    }

    /// An empty collection.
    pub fn new() -> (r: Self)
        ensures
            r.wf(),
            r@ == Seq::<(u128, T)>::empty(),
    {
        let r = Components { items: Vec::new(), index: HashMap::new(), next_id: 0 };
        assert(r@ =~= Seq::<(u128, T)>::empty());
        r
    }

    /// Number of entries.
    pub fn len(&self) -> (r: usize)
        ensures
            r == self@.len(),
    {
        self.items.len()
    }

    /// Whether `handle` resolves in this collection; `get` and `get_mut`
    /// require it.
    pub fn contains(&self, handle: &ComponentHandle<T>) -> (r: bool)
        requires
            self.wf(),
        ensures
            r == has_id(self@, handle@),
    {
        proof {
            self.lemma_consistent_distinct();
        }
        self.index.contains_key(&handle.id())
    }

    /// An id that no entry carries.
    fn fresh_id(&self) -> (r: u128)
        requires
            self.wf(),
        ensures
            !has_id(self@, r),
    {
        proof {
            self.lemma_consistent_distinct();
        }
        if !self.index.contains_key(&self.next_id) {
            return self.next_id;
        }
        let n = self.items.len();
        let mut c: u128 = 0;
        while c <= n as u128
            invariant
                self.wf(),
                n == self.items@.len(),
                forall|j: int| 0 <= j < c ==> #[trigger] self.index@.contains_key(j as u128),
                forall|id: u128| self.index@.contains_key(id) <==> has_id(self@, id),
            decreases n + 1 - c,
        {
            if !self.index.contains_key(&c) {
                return c;
            }
            c = c + 1;
        }
        proof {
            self.lemma_free_id_below(n as nat);
        }
        0
    }

    /// Stores `value` under a fresh handle, appended after every entry, and
    /// returns the handle.
    pub fn add(&mut self, value: T) -> (r: ComponentHandle<T>)
        requires
            old(self).wf(),
            old(self)@.len() < usize::MAX,
        ensures
            final(self).wf(),
            !has_id(old(self)@, r@),
            final(self)@ == old(self)@.push((r@, value)),
            has_id(final(self)@, r@),
            final(self).position_of(r@) == old(self)@.len(),
            forall|id: u128| #[trigger]
                has_id(final(self)@, id) <==> (has_id(old(self)@, id) || id == r@),
    {
        let id = self.fresh_id();
        let pos = self.items.len();
        proof {
            self.lemma_view_facts();
            self.lemma_consistent_distinct();
        }
        self.items.push((ComponentHandle::new(id), value));
        self.index.insert(id, pos);
        self.next_id = if id < u128::MAX {
            id + 1
        } else {
            0
        };
        proof {
            self.lemma_view_facts();
            assert(self@ =~= old(self)@.push((id, value)));
            assert forall|k: u128| #[trigger] self.index@.contains_key(k) implies {
                &&& self.index@[k] < self.items@.len()
                &&& self.items@[self.index@[k] as int].0@ == k
            } by {
                if k != id {
                    assert(old(self).index@.contains_key(k));
                }
            }
            assert forall|i: int| 0 <= i < self.items@.len() implies {
                &&& self.index@.contains_key(#[trigger] self.items@[i].0@)
                &&& self.index@[self.items@[i].0@] == i
            } by {
                if i < pos {
                    assert(old(self)@[i].0 != id);
                }
            }
            self.lemma_consistent_distinct();
            lemma_get_after_add(old(self), self, id, value);
            assert forall|k: u128| #[trigger]
                has_id(self@, k) <==> (has_id(old(self)@, k) || k == id) by {
                if has_id(old(self)@, k) {
                    let i = choose|i: int| 0 <= i < old(self)@.len() && old(self)@[i].0 == k;
                    assert(self@[i].0 == k);
                }
                if has_id(self@, k) && k != id {
                    let i = choose|i: int| 0 <= i < self@.len() && self@[i].0 == k;
                    assert(old(self)@[i].0 == k);
                }
            }
        }
        ComponentHandle::new(id)
    }

    /// Position of the entry carrying `id`, looked up in the index.
    fn position(&self, id: u128) -> (r: usize)
        requires
            self.wf(),
            has_id(self@, id),
        ensures
            r == self.position_of(id),
            r < self@.len(),
            self@[r as int].0 == id,
    {
        proof {
            self.lemma_consistent_distinct();
            self.lemma_position(id);
        }
        match self.index.get(&id) {
            Some(p) => *p,
            None => 0,
        }
    }

    /// The value stored under `handle`, which must have been issued by this
    /// collection.
    pub fn get(&self, handle: &ComponentHandle<T>) -> (r: &T)
        requires
            self.wf(),
            has_id(self@, handle@),
        ensures
            0 <= self.position_of(handle@) < self@.len(),
            self@[self.position_of(handle@)].0 == handle@,
            *r == self@[self.position_of(handle@)].1,
    {
        let p = self.position(handle.id());
        &self.items[p].1
    }

    /// Mutable access to the value stored under `handle`, which must have been
    /// issued by this collection. Only that value can change.
    pub fn get_mut(&mut self, handle: &ComponentHandle<T>) -> (r: &mut T)
        requires
            old(self).wf(),
            has_id(old(self)@, handle@),
        ensures
            0 <= old(self).position_of(handle@) < old(self)@.len(),
            old(self)@[old(self).position_of(handle@)].0 == handle@,
            *r == old(self)@[old(self).position_of(handle@)].1,
            final(self).wf(),
            final(self)@ == old(self)@.update(
                old(self).position_of(handle@),
                (handle@, *final(r)),
            ),
            forall|id: u128| #[trigger] has_id(final(self)@, id) == has_id(old(self)@, id),
    {
        let p = self.position(handle.id());
        let r = self.get_at_mut(p);
        proof {
            lemma_update_keeps_ids(old(self)@, p as int, *final(r));
        }
        r
    }

    /// The value at position `index` in insertion order.
    pub fn get_at(&self, index: usize) -> (r: &T)
        requires
            index < self@.len(),
        ensures
            *r == self@[index as int].1,
    {
        &self.items[index].1
    }

    /// The handle of the entry at position `index` in insertion order.
    pub fn get_handle(&self, index: usize) -> (r: ComponentHandle<T>)
        requires
            index < self@.len(),
        ensures
            r@ == self@[index as int].0,
    {
        self.items[index].0
    }

    /// Mutable access to the value at position `index`; only that value can change.
    pub fn get_at_mut(&mut self, index: usize) -> (r: &mut T)
        requires
            old(self).wf(),
            index < old(self)@.len(),
        ensures
            *r == old(self)@[index as int].1,
            final(self).wf(),
            final(self)@ == old(self)@.update(index as int, (old(self)@[index as int].0, *final(r))),
    {
        let entry = &mut self.items[index];
        assert(after_borrow(self.items)@ == old(self).items@.update(index as int, *final(entry)));
        &mut entry.1
    }

    /// Every entry, as (handle, value) pairs in insertion order.
    pub fn iter(&self) -> (r: &[(ComponentHandle<T>, T)])
        ensures
            pairs_view(r@) == self@,
    {
        self.items.as_slice()
    }

    /// Removes every entry; handles issued before no longer resolve.
    pub fn clear(&mut self)
        ensures
            final(self).wf(),
            final(self)@ == Seq::<(u128, T)>::empty(),
    {
        self.items.clear();
        self.index.clear();
        proof {
            assert(self@ =~= Seq::<(u128, T)>::empty());
        }
    }

    /// The collection's wire form: its (handle, value) pairs in insertion order.
    /// The index is not part of it.
    pub fn into_pairs(self) -> (r: Vec<(ComponentHandle<T>, T)>)
        ensures
            pairs_view(r@) == self@,
    {
        self.items
    }

    /// Rebuilds a collection from its wire form, deriving the index from the
    /// pairs. Fails exactly when two pairs carry the same handle.
    pub fn from_pairs(pairs: Vec<(ComponentHandle<T>, T)>) -> (r: Result<Self, CollectionError>)
        ensures
            r is Ok <==> distinct_ids(pairs_view(pairs@)),
            r matches Ok(c) ==> c.wf() && c@ == pairs_view(pairs@),
            r is Err ==> r == Err::<Self, CollectionError>(CollectionError::DuplicateHandle),
    {
        let ghost w = pairs_view(pairs@);
        let mut index: HashMap<u128, usize> = HashMap::new();
        let n = pairs.len();
        let mut i: usize = 0;
        let mut next_id: u128 = 0;
        while i < n
            invariant
                n == pairs@.len(),
                w == pairs_view(pairs@),
                i <= n,
                forall|j: int|
                    0 <= j < i ==> {
                        &&& index@.contains_key(#[trigger] pairs@[j].0@)
                        &&& index@[pairs@[j].0@] == j
                    },
                forall|id: u128| #[trigger]
                    index@.contains_key(id) ==> {
                        &&& index@[id] < i
                        &&& pairs@[index@[id] as int].0@ == id
                    },
                forall|a: int, b: int| 0 <= a < i && 0 <= b < i && a != b ==> w[a].0 != w[b].0,
            decreases n - i,
        {
            let id = pairs[i].0.id();
            if index.contains_key(&id) {
                proof {
                    let k = index@[id] as int;
                    assert(w[k].0 == w[i as int].0);
                }
                return Err(CollectionError::DuplicateHandle);
            }
            index.insert(id, i);
            if id >= next_id {
                next_id = if id < u128::MAX {
                    id + 1
                } else {
                    0
                };
            }
            i = i + 1;
        }
        let r = Components { items: pairs, index, next_id };
        proof {
            r.lemma_view_facts();
        }
        Ok(r)
    }
}

/// Changing the value of one entry keeps the set of ids held.
pub proof fn lemma_update_keeps_ids<T>(s: Seq<(u128, T)>, i: int, v: T)
    requires
        0 <= i < s.len(),
    ensures
        forall|id: u128| #[trigger] has_id(s.update(i, (s[i].0, v)), id) == has_id(s, id),
{
    let t = s.update(i, (s[i].0, v));
    assert forall|id: u128| #[trigger] has_id(t, id) == has_id(s, id) by {
        if has_id(s, id) {
            let j = choose|j: int| 0 <= j < s.len() && s[j].0 == id;
            assert(t[j].0 == id);
        }
        if has_id(t, id) {
            let j = choose|j: int| 0 <= j < t.len() && t[j].0 == id;
            assert(s[j].0 == id);
        }
    }
}

/// Whatever `add` returned is found again by `get`: a handle that the
/// collection did not hold before, under which the added value is stored.
pub proof fn lemma_get_after_add<T>(
    before: &Components<T>,
    after: &Components<T>,
    handle: u128,
    value: T,
)
    requires
        before.wf(),
        after.wf(),
        !has_id(before@, handle),
        after@ == before@.push((handle, value)),
    ensures
        has_id(after@, handle),
        after.position_of(handle) == before@.len(),
        after@[after.position_of(handle)].1 == value,
{
    let last = before@.len() as int;
    assert(after@[last].0 == handle);
    let p = after.position_of(handle);
    assert(after@[p].0 == handle);
}

/// The wire form of a well-formed collection reads back: each handle's text
/// parses to the same id, and the pairs, carrying distinct handles, rebuild
/// into a collection with the same entries in the same order.
pub proof fn lemma_wire_round_trip<T>(c: &Components<T>)
    requires
        c.wf(),
    ensures
        distinct_ids(c@),
        forall|i: int| 0 <= i < c@.len() ==> parse_spec(#[trigger] handle_text(c@[i].0)) == Some(c@[i].0),
{
    assert forall|i: int| 0 <= i < c@.len() implies parse_spec(#[trigger] handle_text(c@[i].0)) == Some(c@[i].0) by {
        lemma_text_round_trip(c@[i].0);
    }
}

} // verus!
