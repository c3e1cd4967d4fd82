use std::collections::HashMap;
use vstd::prelude::*;

verus! {

broadcast use vstd::std_specs::hash::group_hash_axioms;

/// A simple, general and limited abstraction for storing handle ids that are
/// handed out to scripts.
///
/// Every item is stored under a unique id, which is always greater than 1.
/// Ids are never reused: the table remembers the next id to hand out, and
/// every id in use is below it.
#[derive(Debug)]
pub struct CellMap<T> {
    inner: HashMap<isize, T>,
    counter: isize,
}

impl<T> CellMap<T> {
    /// The items currently stored, by id.
    pub closed spec fn view(&self) -> Map<isize, T> {
        self.inner@
    }

    /// The id that the next insertion hands out.
    pub closed spec fn next_id(&self) -> isize {
        self.counter
    }

    /// Well-formedness: ids start at 2, and every stored id is below the
    /// next id to be handed out.
    pub closed spec fn wf(&self) -> bool {
        &&& self.counter >= 2
        &&& forall|k: isize| #[trigger] self.inner@.contains_key(k) ==> 2 <= k < self.counter
    }

    /// Creates an empty table whose first id is 2.
    pub fn new() -> (r: CellMap<T>)
        ensures
            r.wf(),
            r.view() == Map::<isize, T>::empty(),
            r.next_id() == 2,
    {
        CellMap { inner: HashMap::new(), counter: 2 }
    }

    /// Inserts `item` and returns the id generated for it. The id is greater
    /// than 1, and greater than every id handed out before.
    pub fn insert_with_unique_id(&mut self, item: T) -> (id: isize)
        requires
            old(self).wf(),
            old(self).next_id() < isize::MAX,
        ensures
            final(self).wf(),
            id == old(self).next_id(),
            id > 1,
            !old(self).view().contains_key(id),
            final(self).view() == old(self).view().insert(id, item),
            final(self).next_id() == id + 1,
    {
        let id = self.counter;
        let previous = self.inner.insert(id, item);
        proof {
            assert(previous is None);
        }
        self.counter = self.counter + 1;
        id
    }

    /// The id that the next insertion will hand out.
    pub fn peek_id(&self) -> (id: isize)
        ensures
            id == self.next_id(),
    {
        self.counter
    }

    /// Removes the item stored under `id`, and returns it if there was one.
    pub fn remove_with_id(&mut self, id: isize) -> (r: Option<T>)
        requires
            old(self).wf(),
        ensures
            final(self).wf(),
            final(self).next_id() == old(self).next_id(),
            final(self).view() == old(self).view().remove(id),
            match r {
                Some(v) => old(self).view().contains_key(id) && v == old(self).view()[id],
                None => !old(self).view().contains_key(id),
            },
    {
        self.inner.remove(&id)
    }

    /// The item stored under `id`, if there is one.
    pub fn get_with_id(&self, id: isize) -> (r: Option<&T>)
        requires
            self.wf(),
        ensures
            match r {
                Some(v) => self.view().contains_key(id) && *v == self.view()[id],
                None => !self.view().contains_key(id),
            },
    {
        self.inner.get(&id)
    }

    /// The item stored under `id`, if there is one, for changing in place.
    /// Whatever is written through the returned reference is what the table
    /// then stores under `id`; nothing else in the table changes.
    pub fn get_mut_with_id(&mut self, id: isize) -> (r: Option<&mut T>)
        requires
            old(self).wf(),
        ensures
            final(self).wf(),
            final(self).next_id() == old(self).next_id(),
            match r {
                Some(v) => {
                    &&& old(self).view().contains_key(id)
                    &&& *v == old(self).view()[id]
                    &&& final(self).view() == old(self).view().insert(id, *final(v))
                },
                None => {
                    &&& !old(self).view().contains_key(id)
                    &&& final(self).view() == old(self).view()
                },
            },
    {
        hash_map_get_mut(&mut self.inner, id)
    }
}

impl<T> Default for CellMap<T> {
    /// An empty table; the same as `CellMap::new`.
    fn default() -> (r: CellMap<T>)
        ensures
            r.wf(),
            r.view() == Map::<isize, T>::empty(),
            r.next_id() == 2,
    {
        CellMap::new()
    }
}

/// Calls `HashMap::get_mut` of std. As std documents it, the result is a
/// mutable reference to the value stored under `k`, or `None` when `k` is
/// absent (and then the map is left as it was); what is written through the
/// reference is what the map holds afterwards under `k`.
#[verifier::external_body]
fn hash_map_get_mut<'a, T>(m: &'a mut HashMap<isize, T>, k: isize) -> (r: Option<&'a mut T>)
    ensures
        match r {
            Some(v) => {
                &&& old(m)@.contains_key(k)
                &&& *v == old(m)@[k]
                &&& final(m)@ == old(m)@.insert(k, *final(v))
            },
            None => {
                &&& !old(m)@.contains_key(k)
                &&& final(m)@ == old(m)@
            },
        },
{
    m.get_mut(&k)
}

/// Ids are greater than 1 and never reused: every id in use lies between 2
/// and the next id to be handed out, so the id that the next insertion
/// hands out is fresh.
pub proof fn law_ids_below_next<T>(m: CellMap<T>, id: isize)
    requires
        m.wf(),
        m.view().contains_key(id),
    ensures
        2 <= id < m.next_id(),
{
}

/// The next id of `later` is at least that of `earlier`, as every
/// operation on a table leaves it: insertion raises it by one, removal and
/// lookups keep it.
pub open spec fn next_id_kept_or_raised<T>(earlier: CellMap<T>, later: CellMap<T>) -> bool {
    later.next_id() >= earlier.next_id()
}

/// Over any run of operations on a table, each keeping or raising the next
/// id, the id that an insertion at the end hands out is greater than the
/// id that the insertion at the start handed out.
pub proof fn law_ids_increase_over_calls<T>(states: Seq<CellMap<T>>, first: isize, second: isize)
    requires
        states.len() >= 2,
        first == states[0].next_id(),
        states[1].next_id() == first + 1,
        forall|i: int|
            1 <= i < states.len() - 1 ==> #[trigger] next_id_kept_or_raised(states[i], states[i + 1]),
        second == states.last().next_id(),
    ensures
        second > first,
    decreases states.len(),
{
    if states.len() > 2 {
        let shorter = states.drop_last();
        assert forall|i: int| 1 <= i < shorter.len() - 1 implies #[trigger] next_id_kept_or_raised(
            shorter[i],
            shorter[i + 1],
        ) by {
            assert(next_id_kept_or_raised(states[i], states[i + 1]));
        }
        law_ids_increase_over_calls(shorter, first, shorter.last().next_id());
        let k = states.len() - 2;
        assert(next_id_kept_or_raised(states[k], states[k + 1]));
        assert(shorter.last() == states[k]);
    }
}

/// What was inserted under an id is what a lookup of that id finds, and
/// every other id keeps what it had.
pub proof fn law_get_after_insert<T>(m1: CellMap<T>, m2: CellMap<T>, item: T, other: isize)
    requires
        m2.view() == m1.view().insert(m1.next_id(), item),
        other != m1.next_id(),
    ensures
        m2.view().contains_key(m1.next_id()),
        m2.view()[m1.next_id()] == item,
        m2.view().contains_key(other) == m1.view().contains_key(other),
        m1.view().contains_key(other) ==> m2.view()[other] == m1.view()[other],
{
}

/// An id that was removed is found no more, and every other id keeps what
/// it had.
pub proof fn law_removed_id_gone<T>(m1: CellMap<T>, m2: CellMap<T>, id: isize, other: isize)
    requires
        m2.view() == m1.view().remove(id),
        other != id,
    ensures
        !m2.view().contains_key(id),
        m2.view().contains_key(other) == m1.view().contains_key(other),
        m1.view().contains_key(other) ==> m2.view()[other] == m1.view()[other],
{
}

} // verus!
