//! A generational arena: slots are reused, and ids handed out for a slot go stale when the
//! value in it is removed.
use vstd::prelude::*;
use core::marker::PhantomData;

verus! {

/// A handle to a value in an [`Arena`]: the slot it lives in and the slot's generation when
/// the value was inserted.
#[derive(Debug, Hash)]
pub struct ResourceId<T> {
    index: u32,
    generation: u32,
    _marker: PhantomData<T>,
}

impl<T> ResourceId<T> {
    /// The slot this id refers to.
    pub closed spec fn spec_index(&self) -> u32 {
        self.index
    }

    /// The generation of the slot this id was handed out for.
    pub closed spec fn spec_generation(&self) -> u32 {
        self.generation
    }

    /// The slot this id refers to.
    pub fn index(&self) -> (r: u32)
        ensures
            r == self.spec_index(),
    {
        self.index
    }

    /// The generation of the slot this id was handed out for.
    pub fn generation(&self) -> (r: u32)
        ensures
            r == self.spec_generation(),
    {
        self.generation
    }

    /// A copy of this id.
    pub fn copy_id(&self) -> (r: ResourceId<T>)
        ensures
            r.spec_index() == self.spec_index(),
            r.spec_generation() == self.spec_generation(),
    {
        ResourceId { index: self.index, generation: self.generation, _marker: PhantomData }
    }

    /// The id packed into 64 bits: the generation in the high half, the slot in the low half.
    pub fn to_u64(&self) -> (r: u64)
        ensures
            r == self.spec_generation() as u64 * 0x1_0000_0000 + self.spec_index() as u64,
    {
        self.generation as u64 * 0x1_0000_0000 + self.index as u64
    }

    /// The id packed into `raw` by [`ResourceId::to_u64`].
    pub fn from_u64(raw: u64) -> (r: ResourceId<T>)
        ensures
            r.spec_index() == raw % 0x1_0000_0000,
            r.spec_generation() == raw / 0x1_0000_0000,
    {
        ResourceId {
            index: (raw % 0x1_0000_0000) as u32,
            generation: (raw / 0x1_0000_0000) as u32,
            _marker: PhantomData,
        }
    }

    /// Whether two ids name the same slot and generation.
    pub fn same_as(&self, other: &ResourceId<T>) -> (r: bool)
        ensures
            r == (self.spec_index() == other.spec_index() && self.spec_generation()
                == other.spec_generation()),
    {
        self.index == other.index && self.generation == other.generation
    }
}

struct Slot<T> {
    generation: u32,
    value: Option<T>,
}

/// A slot of an arena, as seen from outside: its generation and its value, if it holds one.
pub type SlotView<T> = (u32, Option<T>);

/// Storage for values of type `T`, addressed by [`ResourceId`]s.
pub struct Arena<T> {
    slots: Vec<Slot<T>>,
    free: Vec<u32>,
}

/// The generation a slot moves to when its value is removed (wrapping around).
pub open spec fn next_generation(g: u32) -> u32 {
    if g == u32::MAX {
        0
    } else {
        (g + 1) as u32
    }
}

/// What [`Arena::insert`] does: it reuses the most recently freed slot if there is one, and
/// appends a slot of generation 0 otherwise; the id names that slot at its current generation.
pub open spec fn inserted<T>(before: Arena<T>, after: Arena<T>, id: ResourceId<T>, value: T) -> bool {
    if before.spec_free().len() > 0 {
        let i = before.spec_free().last();
        &&& id.spec_index() == i
        &&& after.spec_free() == before.spec_free().drop_last()
        &&& after.spec_slots() == before.spec_slots().update(
            i as int,
            (before.spec_slots()[i as int].0, Some(value)),
        )
        &&& id.spec_generation() == before.spec_slots()[i as int].0
    } else {
        &&& id.spec_index() == before.spec_slots().len() as u32
        &&& after.spec_free() == before.spec_free()
        &&& after.spec_slots() == before.spec_slots().push((0u32, Some(value)))
        &&& id.spec_generation() == 0
    }
}

/// What [`Arena::remove`] does: it hands back what [`Arena::get`] would find for `id`; when that
/// is a value, the slot is emptied, moves to the next generation and goes on the free list,
/// and otherwise nothing changes.
pub open spec fn removed<T>(before: Arena<T>, after: Arena<T>, id: ResourceId<T>, r: Option<T>) -> bool {
    &&& r == before.spec_get(id)
    &&& r is None ==> after.spec_slots() == before.spec_slots() && after.spec_free()
        == before.spec_free()
    &&& r is Some ==> {
        let i = id.spec_index() as int;
        &&& after.spec_slots() == before.spec_slots().update(
            i,
            (next_generation(before.spec_slots()[i].0), None),
        )
        &&& after.spec_free() == before.spec_free().push(id.spec_index())
    }
}

/// A value inserted into an arena is what a lookup of the returned id finds.
pub proof fn law_get_after_insert<T>(before: Arena<T>, after: Arena<T>, id: ResourceId<T>, value: T)
    requires
        before.wf(),
        before.spec_free().len() > 0 || before.spec_slots().len() <= u32::MAX,
        inserted(before, after, id, value),
    ensures
        after.spec_get(id) == Some(value),
{
}

/// Inserting leaves every value that an id could reach before still reachable by that id.
pub proof fn law_insert_keeps_live_ids<T>(
    before: Arena<T>,
    after: Arena<T>,
    id: ResourceId<T>,
    value: T,
    other: ResourceId<T>,
)
    requires
        before.wf(),
        inserted(before, after, id, value),
        before.spec_get(other) is Some,
    ensures
        after.spec_get(other) == before.spec_get(other),
{
    if before.spec_free().len() > 0 {
        let i = before.spec_free().last();
        if other.spec_index() == i {
            assert(before.spec_free().contains(i));
            assert(before.spec_free()[before.spec_free().len() - 1] == i);
        }
    }
}

/// Once a value is removed, the id it was reached by is stale, and every other live id still
/// reaches its value.
pub proof fn law_remove_makes_id_stale<T>(
    before: Arena<T>,
    after: Arena<T>,
    id: ResourceId<T>,
    r: Option<T>,
    other: ResourceId<T>,
)
    requires
        before.wf(),
        removed(before, after, id, r),
        r is Some,
        other.spec_index() != id.spec_index(),
    ensures
        after.spec_get(id) is None,
        after.spec_get(other) == before.spec_get(other),
{
}

/// Whether every `(slot, generation)` pair in `issued` could be an id this arena handed out:
/// it names an existing slot, at the slot's current generation only while the slot holds a
/// value, and otherwise at an earlier generation.
pub open spec fn issued_ids<T>(a: Arena<T>, issued: Set<(u32, u32)>) -> bool {
    forall|p: (u32, u32)|
        #[trigger] issued.contains(p) ==> p.0 < a.spec_slots().len() && (p.1 < a.spec_slots()[p.0 as int].0
            || (p.1 == a.spec_slots()[p.0 as int].0 && a.spec_slots()[p.0 as int].1 is Some))
}

/// Whether the `(slot, generation)` pair `p` names a slot of `a` at an earlier generation
/// than the slot's current one.
pub open spec fn stale<T>(a: Arena<T>, p: (u32, u32)) -> bool {
    p.0 < a.spec_slots().len() && p.1 < a.spec_slots()[p.0 as int].0
}

/// The `(slot, generation)` pair of an id.
pub open spec fn id_pair<T>(id: ResourceId<T>) -> (u32, u32) {
    (id.spec_index(), id.spec_generation())
}

/// An id that has gone stale finds nothing.
pub proof fn law_stale_ids_find_nothing<T>(a: Arena<T>, id: ResourceId<T>)
    requires
        stale(a, id_pair(id)),
    ensures
        a.spec_get(id) is None,
{
}

/// Inserting hands out an id that differs from every id handed out before, keeps every
/// stale id stale, and the ids handed out, the new one included, stay as described by
/// [`issued_ids`].
pub proof fn law_insert_hands_out_a_fresh_id<T>(
    before: Arena<T>,
    after: Arena<T>,
    id: ResourceId<T>,
    value: T,
    issued: Set<(u32, u32)>,
)
    requires
        before.wf(),
        issued_ids(before, issued),
        before.spec_free().len() > 0 || before.spec_slots().len() <= u32::MAX,
        inserted(before, after, id, value),
    ensures
        !issued.contains(id_pair(id)),
        issued_ids(after, issued.insert(id_pair(id))),
        forall|p: (u32, u32)| #[trigger] issued.contains(p) && stale(before, p) ==> stale(after, p),
{
    let b = before.spec_slots();
    if before.spec_free().len() > 0 {
        let i = before.spec_free().last();
        assert(before.spec_free()[before.spec_free().len() - 1] == i);
        assert(before.spec_free().contains(i));
        assert(b[i as int].1 is None);
        if issued.contains(id_pair(id)) {
            assert(id_pair(id).0 == i);
        }
    } else {
        if issued.contains(id_pair(id)) {
            assert(id_pair(id).0 < b.len());
        }
    }
}

/// Removing keeps the ids handed out as described by [`issued_ids`] and every stale id
/// stale, as long as the slot's generation does not wrap around.
pub proof fn law_remove_keeps_issued_ids<T>(
    before: Arena<T>,
    after: Arena<T>,
    id: ResourceId<T>,
    r: Option<T>,
    issued: Set<(u32, u32)>,
)
    requires
        before.wf(),
        issued_ids(before, issued),
        removed(before, after, id, r),
        r is Some ==> before.spec_slots()[id.spec_index() as int].0 < u32::MAX,
    ensures
        issued_ids(after, issued),
        forall|p: (u32, u32)| #[trigger] issued.contains(p) && stale(before, p) ==> stale(after, p),
{
}

impl<T> Arena<T> {
    /// The slots, in index order.
    pub closed spec fn spec_slots(&self) -> Seq<SlotView<T>> {
        self.slots@.map_values(|s: Slot<T>| (s.generation, s.value))
    }

    /// The indices of the empty slots, the next one to be reused last.
    pub closed spec fn spec_free(&self) -> Seq<u32> {
        self.free@
    }

    /// The free list names exactly the empty slots, each once.
    pub open spec fn wf(&self) -> bool {
        &&& self.spec_slots().len() <= u32::MAX + 1
        &&& forall|k: int|
            0 <= k < self.spec_free().len() ==> (#[trigger] self.spec_free()[k]) < self.spec_slots().len()
        &&& forall|k: int, l: int|
            0 <= k < l < self.spec_free().len() ==> self.spec_free()[k] != self.spec_free()[l]
        &&& forall|i: int|
            0 <= i < self.spec_slots().len() ==> ((#[trigger] self.spec_slots()[i]).1 is None
                <==> self.spec_free().contains(i as u32))
    }

    /// What [`get`](Self::get) finds for `id`.
    pub open spec fn spec_get(&self, id: ResourceId<T>) -> Option<T> {
        if id.spec_index() < self.spec_slots().len() && self.spec_slots()[id.spec_index() as int].0
            == id.spec_generation() {
            self.spec_slots()[id.spec_index() as int].1
        } else {
            None
        }
    }

    /// An empty arena.
    pub fn new() -> (r: Self)
        ensures
            r.wf(),
            r.spec_slots() == Seq::<SlotView<T>>::empty(),
            r.spec_free() == Seq::<u32>::empty(),
    {
        let r = Arena { slots: Vec::new(), free: Vec::new() };
        assert(r.spec_slots() =~= Seq::<SlotView<T>>::empty());
        r
    }

    /// Stores `value`, reusing the most recently freed slot if there is one, and returns its id.
    pub fn insert(&mut self, value: T) -> (id: ResourceId<T>)
        requires
            old(self).wf(),
            old(self).spec_free().len() > 0 || old(self).spec_slots().len() <= u32::MAX,
        ensures
            final(self).wf(),
            inserted(*old(self), *final(self), id, value),
    {
        let ghost old_slots = self.spec_slots();
        let ghost old_free = self.spec_free();
        let index = match self.free.pop() {
            Some(index) => {
                let generation = self.slots[index as usize].generation;
                let mut slot = Slot { generation, value: Some(value) };
                self.slots.set_and_swap(index as usize, &mut slot);
                proof {
                    assert(self.spec_slots() =~= old_slots.update(
                        index as int,
                        (old_slots[index as int].0, Some(value)),
                    ));
                    assert(old_free =~= self.spec_free().push(index));
                    assert forall|k: int, l: int|
                        0 <= k < l < self.spec_free().len() implies self.spec_free()[k]
                        != self.spec_free()[l] by {
                        assert(old_free[k] == self.spec_free()[k]);
                        assert(old_free[l] == self.spec_free()[l]);
                    }
                    assert forall|i: int| 0 <= i < self.spec_slots().len() implies ((#[trigger] self.spec_slots()[i]).1 is None
                        <==> self.spec_free().contains(i as u32)) by {
                        if i == index as int {
                            if self.spec_free().contains(i as u32) {
                                let k = choose|k: int|
                                    0 <= k < self.spec_free().len() && self.spec_free()[k]
                                        == i as u32;
                                assert(old_free[k] == old_free[old_free.len() - 1]);
                            }
                        } else {
                            assert(old_slots[i] == self.spec_slots()[i]);
                            if old_free.contains(i as u32) {
                                let k = choose|k: int|
                                    0 <= k < old_free.len() && old_free[k] == i as u32;
                                assert(k != old_free.len() - 1);
                                assert(self.spec_free()[k] == i as u32);
                            }
                            if self.spec_free().contains(i as u32) {
                                let k = choose|k: int|
                                    0 <= k < self.spec_free().len() && self.spec_free()[k]
                                        == i as u32;
                                assert(old_free[k] == i as u32);
                            }
                        }
                    }
                }
                index
            },
            None => {
                self.slots.push(Slot { generation: 0, value: Some(value) });
                proof {
                    assert(self.spec_slots() =~= old_slots.push((0u32, Some(value))));
                    assert forall|i: int| 0 <= i < self.spec_slots().len() implies ((#[trigger] self.spec_slots()[i]).1 is None
                        <==> self.spec_free().contains(i as u32)) by {
                        if i < old_slots.len() {
                            assert(old_slots[i] == self.spec_slots()[i]);
                        } else {
                            assert(self.spec_free().len() == 0);
                        }
                    }
                }
                (self.slots.len() - 1) as u32
            },
        };
        ResourceId { index, generation: self.slots[index as usize].generation, _marker: PhantomData }
    }

    /// The value `id` refers to, if its slot still holds the value it was handed out for.
    pub fn get(&self, id: &ResourceId<T>) -> (r: Option<&T>)
        ensures
            match (r, self.spec_get(*id)) {
                (Some(a), Some(b)) => *a == b,
                (None, None) => true,
                _ => false,
            },
    {
        if (id.index as usize) >= self.slots.len() {
            return None;
        }
        let slot = &self.slots[id.index as usize];
        if slot.generation != id.generation {
            return None;
        }
        slot.value.as_ref()
    }

    /// Takes the value `id` refers to out of its slot, if the slot still holds the value it
    /// was handed out for. The slot's generation moves on, so every id previously handed out
    /// for it is stale, and the slot goes on the free list.
    pub fn remove(&mut self, id: &ResourceId<T>) -> (r: Option<T>)
        requires
            old(self).wf(),
        ensures
            final(self).wf(),
            removed(*old(self), *final(self), *id, r),
    {
        let ghost old_slots = self.spec_slots();
        let ghost old_free = self.spec_free();
        if (id.index as usize) >= self.slots.len() {
            return None;
        }
        let index = id.index as usize;
        let generation = self.slots[index].generation;
        if generation != id.generation {
            return None;
        }
        if self.slots[index].value.is_none() {
            return None;
        }
        // Bump on free, so every id previously handed out for this slot is stale.
        let next = if generation == u32::MAX {
            0
        } else {
            generation + 1
        };
        let mut slot = Slot { generation: next, value: None };
        self.slots.set_and_swap(index, &mut slot);
        self.free.push(id.index);
        proof {
            assert(self.spec_slots() =~= old_slots.update(index as int, (next, None)));
            assert(self.spec_free() =~= old_free.push(id.index));
            assert(!old_free.contains(id.index)) by {
                assert(old_slots[index as int].1 is Some);
            }
            assert forall|k: int, l: int|
                0 <= k < l < self.spec_free().len() implies self.spec_free()[k]
                != self.spec_free()[l] by {
                if l == old_free.len() {
                    assert(self.spec_free()[k] == old_free[k]);
                } else {
                    assert(self.spec_free()[k] == old_free[k]);
                    assert(self.spec_free()[l] == old_free[l]);
                }
            }
            assert forall|i: int| 0 <= i < self.spec_slots().len() implies ((#[trigger] self.spec_slots()[i]).1 is None
                <==> self.spec_free().contains(i as u32)) by {
                if i == index as int {
                    assert(self.spec_free()[old_free.len() as int] == i as u32);
                } else {
                    assert(old_slots[i] == self.spec_slots()[i]);
                    if old_free.contains(i as u32) {
                        let k = choose|k: int| 0 <= k < old_free.len() && old_free[k] == i as u32;
                        assert(self.spec_free()[k] == i as u32);
                    }
                    if self.spec_free().contains(i as u32) {
                        let k = choose|k: int|
                            0 <= k < self.spec_free().len() && self.spec_free()[k] == i as u32;
                        if k < old_free.len() {
                            assert(old_free[k] == i as u32);
                        } else {
                            assert(self.spec_free()[k] == id.index);
                        }
                    }
                }
            }
        }
        slot.value
    }

    /// Number of slots, whether they hold a value or not.
    pub fn capacity(&self) -> (r: usize)
        ensures
            r == self.spec_slots().len(),
    {
        self.slots.len()
    }
}

/// Packing an id into 64 bits and reading it back gives the same id.
pub proof fn law_packed_id_round_trips(index: u32, generation: u32)
    ensures
        ((generation as u64 * 0x1_0000_0000 + index as u64) as u64) % 0x1_0000_0000 == index,
        ((generation as u64 * 0x1_0000_0000 + index as u64) as u64) / 0x1_0000_0000 == generation,
{
    assert(((generation as u64 * 0x1_0000_0000 + index as u64) as u64) % 0x1_0000_0000 == index
        && ((generation as u64 * 0x1_0000_0000 + index as u64) as u64) / 0x1_0000_0000 == generation)
        by (nonlinear_arith);
}

} // verus!
