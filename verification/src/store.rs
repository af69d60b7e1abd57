//! Generational slot store: `Handle`s stay valid until their value is removed,
//! and a removed slot is reused with a bumped generation.
use std::marker::PhantomData;
use vstd::prelude::*;

verus! {

/// Typed handle into a [`Store`]: slot index plus the slot generation it was issued for.
pub struct Handle<T> {
    pub index: u32,
    pub generation: u32,
    pub _m: PhantomData<T>,
}

impl<T> Clone for Handle<T> {
    fn clone(&self) -> (r: Self)
        ensures
            r.index == self.index,
            r.generation == self.generation,
    {
        Handle { index: self.index, generation: self.generation, _m: PhantomData }
    }
}

impl<T> Copy for Handle<T> {
}

impl<T> Handle<T> {
    /// Builds a handle from its raw parts.
    pub fn from_parts(index: u32, generation: u32) -> (h: Self)
        ensures
            h.index == index,
            h.generation == generation,
    {
        Handle { index, generation, _m: PhantomData }
    }

    /// `(index, generation)`: a key that identifies the handle.
    pub fn key(self) -> (r: (u32, u32))
        ensures
            r == (self.index, self.generation),
    {
        (self.index, self.generation)
    }
}

struct Slot<T> {
    generation: u32,
    value: Option<T>,
}

/// Values addressed by generational handles.
pub struct Store<T> {
    slots: Vec<Slot<T>>,
    free: Vec<u32>,
}

/// What a handle resolves to in a slot sequence: the slot's value when the index is in
/// range and the generations agree.
pub open spec fn resolve<T>(slots: Seq<(u32, Option<T>)>, index: u32, generation: u32) -> Option<T> {
    if (index as int) < slots.len() && slots[index as int].0 == generation {
        slots[index as int].1
    } else {
        None
    }
}

/// Live entries of a slot sequence, in slot order, as `(index, generation, value)`.
pub open spec fn live_entries<T>(slots: Seq<(u32, Option<T>)>) -> Seq<(u32, u32, T)>
    decreases slots.len(),
{
    if slots.len() == 0 {
        Seq::empty()
    } else {
        let rest = live_entries(slots.drop_last());
        match slots.last().1 {
            Some(v) => rest.push(((slots.len() - 1) as u32, slots.last().0, v)),
            None => rest,
        }
    }
}

/// Slot and free-list views that a store can have: indices fit in `u32`, every free index
/// names an empty slot, no index is free twice, and every empty slot is free.
pub open spec fn views_wf<T>(slots: Seq<(u32, Option<T>)>, free: Seq<u32>) -> bool {
    &&& slots.len() <= 0x1_0000_0000
    &&& forall|k: int|
        #![trigger free[k]]
        0 <= k < free.len() ==> (free[k] as int) < slots.len() && slots[free[k] as int].1 is None
    &&& forall|k: int, l: int|
        #![trigger free[k], free[l]]
        0 <= k < l < free.len() ==> free[k] != free[l]
    &&& forall|i: int|
        #![trigger slots[i]]
        0 <= i < slots.len() && slots[i].1 is None ==> free.contains(i as u32)
}

/// The generation a slot moves to when its value is removed (wrapping).
pub open spec fn next_generation(g: u32) -> u32 {
    if g == u32::MAX { 0 } else { (g + 1) as u32 }
}

impl<T> Store<T> {
    /// Slot states `(generation, value)`, by index.
    pub closed spec fn slot_view(&self) -> Seq<(u32, Option<T>)> {
        self.slots@.map_values(|s: Slot<T>| (s.generation, s.value))
    }

    /// Free slot indices; the last one is reused first.
    pub closed spec fn free_view(&self) -> Seq<u32> {
        self.free@
    }

    /// The handle resolves to this value.
    pub open spec fn lookup(&self, h: Handle<T>) -> Option<T> {
        resolve(self.slot_view(), h.index, h.generation)
    }

    /// Structural facts kept by every operation: indices fit in `u32`, every free index
    /// names an empty slot, no index is free twice, and every empty slot is free.
    pub closed spec fn wf(&self) -> bool {
        &&& self.slots@.len() <= 0x1_0000_0000
        &&& forall|k: int|
            #![trigger self.free@[k]]
            0 <= k < self.free@.len() ==> (self.free@[k] as int) < self.slots@.len()
                && self.slots@[self.free@[k] as int].value is None
        &&& forall|k: int, l: int|
            #![trigger self.free@[k], self.free@[l]]
            0 <= k < l < self.free@.len() ==> self.free@[k] != self.free@[l]
        &&& forall|i: int|
            #![trigger self.slots@[i]]
            0 <= i < self.slots@.len() && self.slots@[i].value is None ==> self.free@.contains(
                i as u32,
            )
    }

    /// `wf`, stated over the views.
    pub open spec fn well_formed(&self) -> bool {
        views_wf(self.slot_view(), self.free_view())
    }

    /// A well-formed store satisfies `well_formed`.
    pub proof fn lemma_well_formed(&self)
        requires
            self.wf(),
        ensures
            self.well_formed(),
    {
        assert forall|k: int|
            #![trigger self.free_view()[k]]
            0 <= k < self.free_view().len() implies (self.free_view()[k] as int)
            < self.slot_view().len() && self.slot_view()[self.free_view()[k] as int].1 is None by {
            assert(self.free@[k] == self.free_view()[k]);
        }
        assert forall|i: int|
            #![trigger self.slot_view()[i]]
            0 <= i < self.slot_view().len() && self.slot_view()[i].1 is None
                implies self.free_view().contains(i as u32) by {
            assert(self.slots@[i].value is None);
        }
    }

    /// An empty store.
    pub fn new() -> (s: Self)
        ensures
            s.wf(),
            s.slot_view() == Seq::<(u32, Option<T>)>::empty(),
            s.free_view() == Seq::<u32>::empty(),
    {
        let s = Store { slots: Vec::new(), free: Vec::new() };
        assert(s.slot_view() =~= Seq::<(u32, Option<T>)>::empty());
        s
    }

    /// Stores `value`, reusing the most recently freed slot if there is one.
    pub fn insert(&mut self, value: T) -> (h: Handle<T>)
        requires
            old(self).wf(),
            old(self).free_view().len() > 0 || old(self).slot_view().len() < 0x1_0000_0000,
        ensures
            final(self).wf(),
            old(self).free_view().len() > 0 ==> {
                let i = old(self).free_view().last();
                &&& h.index == i
                &&& h.generation == old(self).slot_view()[i as int].0
                &&& final(self).slot_view() == old(self).slot_view().update(
                    i as int,
                    (h.generation, Some(value)),
                )
                &&& final(self).free_view() == old(self).free_view().drop_last()
            },
            old(self).free_view().len() == 0 ==> {
                &&& h.index == old(self).slot_view().len()
                &&& h.generation == 0
                &&& final(self).slot_view() == old(self).slot_view().push((0u32, Some(value)))
                &&& final(self).free_view() == old(self).free_view()
            },
            final(self).lookup(h) == Some(value),
            forall|g: Handle<T>|
                #[trigger] old(self).lookup(g) is Some ==> !(g.index == h.index && g.generation
                    == h.generation),
            (final(self).slot_view(), final(self).free_view(), Some((h.index, h.generation)), None::<u32>)
                == op_step(old(self).slot_view(), old(self).free_view(), StoreOp::Insert(value)),
    {
        let ghost old_slots = self.slot_view();
        proof {
            self.lemma_well_formed();
        }
        let ghost old_free = self.free@;
        if self.free.len() > 0 {
            let ghost k = old_free.len() - 1;
            let index = self.free[self.free.len() - 1];
            assert(self.free@[k] == index);
            let generation = self.slots[index as usize].generation;
            self.free.pop();
            self.slots.set(index as usize, Slot { generation, value: Some(value) });
            proof {
                assert forall|j: int| 0 <= j < self.free@.len() implies self.free@[j] != index by {
                    assert(old_free[j] != old_free[k]);
                }
                assert forall|i: int|
                    #![trigger self.slots@[i]]
                    0 <= i < self.slots@.len() && self.slots@[i].value is None
                        implies self.free@.contains(i as u32) by {
                    assert(i != index);
                    assert(old_free.contains(i as u32));
                    let j = choose|j: int| 0 <= j < old_free.len() && old_free[j] == i as u32;
                    assert(j != k);
                    assert(self.free@[j] == i as u32);
                }
                assert(self.slot_view() =~= old_slots.update(
                    index as int,
                    (generation, Some(value)),
                ));
            }
            return Handle { index, generation, _m: PhantomData };
        }
        let index = self.slots.len() as u32;
        self.slots.push(Slot { generation: 0, value: Some(value) });
        proof {
            assert forall|i: int|
                #![trigger self.slots@[i]]
                0 <= i < self.slots@.len() && self.slots@[i].value is None
                    implies self.free@.contains(i as u32) by {
                assert(i < old_slots.len());
                assert(old_slots[i].1 is None);
            }
            assert(self.slot_view() =~= old_slots.push((0u32, Some(value))));
        }
        Handle { index, generation: 0, _m: PhantomData }
    }

    /// The value `h` refers to, if it is still live.
    pub fn get(&self, h: Handle<T>) -> (r: Option<&T>)
        ensures
            r matches Some(v) ==> self.lookup(h) == Some(*v),
            r is None ==> self.lookup(h) is None,
    {
        let i = h.index as usize;
        if i >= self.slots.len() {
            return None;
        }
        let s = &self.slots[i];
        if s.generation != h.generation {
            return None;
        }
        s.value.as_ref()
    }

    /// Mutable access to the value `h` refers to, if it is still live.
    pub fn get_mut(&mut self, h: Handle<T>) -> (r: Option<&mut T>)
        requires
            old(self).wf(),
        ensures
            r matches Some(v) ==> {
                &&& old(self).lookup(h) == Some(*v)
                &&& final(self).slot_view() == old(self).slot_view().update(
                    h.index as int,
                    (h.generation, Some(*final(v))),
                )
                &&& final(self).free_view() == old(self).free_view()
                &&& final(self).wf()
            },
            r is None ==> old(self).lookup(h) is None && final(self).slot_view()
                == old(self).slot_view() && final(self).free_view() == old(self).free_view()
                && final(self).wf(),
    {
        let i = h.index as usize;
        if i >= self.slots.len() {
            return None;
        }
        if self.slots[i].generation != h.generation {
            return None;
        }
        if self.slots[i].value.is_none() {
            return None;
        }
        let slot = &mut self.slots[i];
        slot.value.as_mut()
    }

    /// Takes the value `h` refers to out of the store; its slot becomes free and its
    /// generation moves on, so `h` (and every copy of it) stops resolving.
    pub fn remove(&mut self, h: Handle<T>) -> (r: Option<T>)
        requires
            old(self).wf(),
        ensures
            final(self).wf(),
            r == old(self).lookup(h),
            r is None ==> final(self).slot_view() == old(self).slot_view()
                && final(self).free_view() == old(self).free_view(),
            r is Some ==> {
                &&& final(self).slot_view() == old(self).slot_view().update(
                    h.index as int,
                    (next_generation(h.generation), None::<T>),
                )
                &&& final(self).free_view() == old(self).free_view().push(h.index)
            },
            final(self).lookup(h) is None,
            (final(self).slot_view(), final(self).free_view(), None::<(u32, u32)>, if r is Some {
                Some(h.index)
            } else {
                None
            }) == op_step(old(self).slot_view(), old(self).free_view(), StoreOp::Remove(h.index, h.generation)),
    {
        let ghost old_slots = self.slot_view();
        let ghost old_free = self.free@;
        let i = h.index as usize;
        if i >= self.slots.len() {
            return None;
        }
        if self.slots[i].generation != h.generation {
            return None;
        }
        if self.slots[i].value.is_none() {
            return None;
        }
        let next_gen = h.generation.wrapping_add(1);
        let slot = &mut self.slots[i];
        let v = slot.value.take();
        slot.generation = next_gen;
        self.free.push(h.index);
        proof {
            assert forall|k: int|
                #![trigger self.free@[k]]
                0 <= k < self.free@.len() implies (self.free@[k] as int) < self.slots@.len()
                && self.slots@[self.free@[k] as int].value is None by {
                if k < old_free.len() {
                    assert(old_free[k] == self.free@[k]);
                }
            }
            assert forall|k: int, l: int|
                #![trigger self.free@[k], self.free@[l]]
                0 <= k < l < self.free@.len() implies self.free@[k] != self.free@[l] by {
                if l == old_free.len() {
                    assert(old_free[k] == self.free@[k]);
                }
            }
            assert forall|j: int|
                #![trigger self.slots@[j]]
                0 <= j < self.slots@.len() && self.slots@[j].value is None
                    implies self.free@.contains(j as u32) by {
                if j == i {
                    assert(self.free@[old_free.len() as int] == j as u32);
                } else {
                    let q = choose|q: int| 0 <= q < old_free.len() && old_free[q] == j as u32;
                    assert(self.free@[q] == j as u32);
                }
            }
            assert(self.slot_view() =~= old_slots.update(
                h.index as int,
                (next_generation(h.generation), None::<T>),
            ));
        }
        v
    }

    /// Every live value with its handle, in slot order.
    pub fn iter(&self) -> (r: Vec<(Handle<T>, &T)>)
        requires
            self.wf(),
        ensures
            r@.len() == live_entries(self.slot_view()).len(),
            forall|k: int|
                0 <= k < r@.len() ==> {
                    let e = live_entries(self.slot_view())[k];
                    &&& (#[trigger] r@[k]).0.index == e.0
                    &&& r@[k].0.generation == e.1
                    &&& *r@[k].1 == e.2
                },
    {
        let mut out: Vec<(Handle<T>, &T)> = Vec::new();
        let mut i: usize = 0;
        while i < self.slots.len()
            invariant
                i <= self.slots@.len(),
                self.slots@.len() <= 0x1_0000_0000,
                out@.len() == live_entries(self.slot_view().take(i as int)).len(),
                forall|k: int|
                    0 <= k < out@.len() ==> {
                        let e = live_entries(self.slot_view().take(i as int))[k];
                        &&& (#[trigger] out@[k]).0.index == e.0
                        &&& out@[k].0.generation == e.1
                        &&& *out@[k].1 == e.2
                    },
            decreases self.slots@.len() - i,
        {
            let ghost before = self.slot_view().take(i as int);
            let ghost after = self.slot_view().take(i as int + 1);
            assert(after.drop_last() =~= before);
            let s = &self.slots[i];
            match s.value.as_ref() {
                Some(v) => {
                    out.push((Handle { index: i as u32, generation: s.generation, _m: PhantomData }, v));
                },
                None => {},
            }
            i += 1;
        }
        assert(self.slot_view().take(i as int) =~= self.slot_view());
        out
    }
}

impl<T> Default for Store<T> {
    fn default() -> (s: Self)
        ensures
            s.wf(),
            s.slot_view() == Seq::<(u32, Option<T>)>::empty(),
            s.free_view() == Seq::<u32>::empty(),
    {
        Store::new()
    }
}

/// Inserting never changes what an already-live handle resolves to (whether the value
/// goes into a reused slot or a new one).
pub proof fn law_insert_keeps_live_handles<T>(
    slots: Seq<(u32, Option<T>)>,
    free: Seq<u32>,
    value: T,
    index: u32,
    generation: u32,
)
    requires
        views_wf(slots, free),
        resolve(slots, index, generation) is Some,
    ensures
        free.len() > 0 ==> resolve(
            slots.update(free.last() as int, (slots[free.last() as int].0, Some(value))),
            index,
            generation,
        ) == resolve(slots, index, generation),
        resolve(slots.push((0u32, Some(value))), index, generation) == resolve(
            slots,
            index,
            generation,
        ),
{
    if free.len() > 0 {
        assert(free[free.len() - 1] != index);
    }
}

/// Removing through one handle never changes what a handle to another slot resolves to.
pub proof fn law_remove_keeps_other_slots<T>(
    slots: Seq<(u32, Option<T>)>,
    removed: u32,
    generation: u32,
    index: u32,
    other_generation: u32,
)
    requires
        (removed as int) < slots.len(),
        index != removed,
    ensures
        resolve(
            slots.update(removed as int, (next_generation(generation), None::<T>)),
            index,
            other_generation,
        ) == resolve(slots, index, other_generation),
{
}

/// A removed handle stays dead when its slot is reused: the next insert takes the freed
/// slot (it is the last free index) under a new generation, so the old handle still
/// resolves to nothing while the new one resolves to the new value.
pub proof fn law_stale_handle_after_reuse<T>(
    slots: Seq<(u32, Option<T>)>,
    free: Seq<u32>,
    index: u32,
    generation: u32,
    value: T,
)
    requires
        views_wf(slots, free),
        resolve(slots, index, generation) is Some,
    ensures
        ({
            let removed = slots.update(index as int, (next_generation(generation), None::<T>));
            let freed = free.push(index);
            let reused = removed.update(
                freed.last() as int,
                (removed[freed.last() as int].0, Some(value)),
            );
            &&& views_wf(removed, freed)
            &&& freed.last() == index
            &&& resolve(reused, index, generation) is None
            &&& resolve(reused, index, next_generation(generation)) == Some(value)
        }),
{
    let removed = slots.update(index as int, (next_generation(generation), None::<T>));
    let freed = free.push(index);
    assert forall|k: int|
        #![trigger freed[k]]
        0 <= k < freed.len() implies (freed[k] as int) < removed.len()
        && removed[freed[k] as int].1 is None by {
        if k < free.len() {
            assert(free[k] == freed[k]);
        }
    }
    assert forall|k: int, l: int|
        #![trigger freed[k], freed[l]]
        0 <= k < l < freed.len() implies freed[k] != freed[l] by {
        if l == free.len() {
            assert(free[k] == freed[k]);
        }
    }
    assert forall|i: int|
        #![trigger removed[i]]
        0 <= i < removed.len() && removed[i].1 is None implies freed.contains(i as u32) by {
        if i == index {
            assert(freed[free.len() as int] == i as u32);
        } else {
            let q = choose|q: int| 0 <= q < free.len() && free[q] == i as u32;
            assert(freed[q] == i as u32);
        }
    }
}

/// Every entry that `iter` reports resolves, through its handle, to the reported value.
pub proof fn law_live_entries_resolve<T>(slots: Seq<(u32, Option<T>)>, k: int)
    requires
        slots.len() <= 0x1_0000_0000,
        0 <= k < live_entries(slots).len(),
    ensures
        ({
            let e = live_entries(slots)[k];
            resolve(slots, e.0, e.1) == Some(e.2)
        }),
    decreases slots.len(),
{
    let rest = live_entries(slots.drop_last());
    if k < rest.len() {
        law_live_entries_resolve(slots.drop_last(), k);
        let e = rest[k];
        assert(resolve(slots.drop_last(), e.0, e.1) == Some(e.2));
    }
}

/// What `iter` lists: every live handle of a store exactly once, in strictly increasing
/// slot index, each with the value it resolves to, and nothing else.
pub proof fn law_iter_lists_live_handles_once<T>(s: &Store<T>)
    requires
        s.wf(),
    ensures
        ({
            let es = live_entries(s.slot_view());
            &&& forall|k: int|
                0 <= k < es.len() ==> resolve(s.slot_view(), (#[trigger] es[k]).0, es[k].1)
                    == Some(es[k].2)
            &&& forall|k: int, l: int|
                0 <= k < l < es.len() ==> (#[trigger] es[k]).0 < (#[trigger] es[l]).0
            &&& forall|h: Handle<T>|
                #[trigger] s.lookup(h) is Some ==> exists|k: int|
                    0 <= k < es.len() && (#[trigger] es[k]).0 == h.index && es[k].1
                        == h.generation
        }),
{
    s.lemma_well_formed();
    let sl = s.slot_view();
    let es = live_entries(sl);
    lemma_live_entries(sl);
    assert forall|k: int| 0 <= k < es.len() implies resolve(sl, (#[trigger] es[k]).0, es[k].1)
        == Some(es[k].2) by {
        law_live_entries_resolve(sl, k);
    }
    assert forall|h: Handle<T>| #[trigger] s.lookup(h) is Some implies exists|k: int|
        0 <= k < es.len() && (#[trigger] es[k]).0 == h.index && es[k].1 == h.generation by {
        let i = h.index as int;
        assert(sl[i].1 is Some);
        let k = choose|k: int| 0 <= k < es.len() && es[k].0 == i;
        assert(sl[es[k].0 as int] == (es[k].1, Some(es[k].2)));
    }
}

/// Facts about `live_entries`: each entry is the live slot it names, the indices
/// strictly increase, and every live slot is listed.
pub proof fn lemma_live_entries<T>(slots: Seq<(u32, Option<T>)>)
    requires
        slots.len() <= 0x1_0000_0000,
    ensures
        forall|k: int|
            0 <= k < live_entries(slots).len() ==> {
                let e = #[trigger] live_entries(slots)[k];
                &&& (e.0 as int) < slots.len()
                &&& slots[e.0 as int] == (e.1, Some(e.2))
            },
        forall|k: int, l: int|
            0 <= k < l < live_entries(slots).len() ==> (#[trigger] live_entries(slots)[k]).0
                < (#[trigger] live_entries(slots)[l]).0,
        forall|i: int|
            0 <= i < slots.len() && (#[trigger] slots[i]).1 is Some ==> exists|k: int|
                0 <= k < live_entries(slots).len() && live_entries(slots)[k].0 == i,
    decreases slots.len(),
{
    if slots.len() > 0 {
        let d = slots.drop_last();
        lemma_live_entries(d);
        let rest = live_entries(d);
        let n = slots.len() - 1;
        assert forall|i: int| 0 <= i < slots.len() && (#[trigger] slots[i]).1 is Some implies exists|k: int|
            0 <= k < live_entries(slots).len() && live_entries(slots)[k].0 == i by {
            if i < n {
                assert(d[i] == slots[i]);
                let k = choose|k: int| 0 <= k < rest.len() && rest[k].0 == i;
                assert(live_entries(slots)[k] == rest[k]);
            } else {
                assert(live_entries(slots)[rest.len() as int].0 == n);
            }
        }
        assert forall|k: int|
            0 <= k < live_entries(slots).len() implies {
                let e = #[trigger] live_entries(slots)[k];
                &&& (e.0 as int) < slots.len()
                &&& slots[e.0 as int] == (e.1, Some(e.2))
            } by {
            if k < rest.len() {
                assert(live_entries(slots)[k] == rest[k]);
                assert(d[rest[k].0 as int] == slots[rest[k].0 as int]);
            }
        }
    }
}

/// Every slot emptied: live values gone, their generations moved on.
pub open spec fn emptied<T>(slots: Seq<(u32, Option<T>)>) -> Seq<(u32, Option<T>)> {
    Seq::new(
        slots.len(),
        |i: int|
            match slots[i].1 {
                Some(_) => (next_generation(slots[i].0), None::<T>),
                None => slots[i],
            },
    )
}

/// The slots after removing the first `k` live entries.
pub open spec fn cleared_upto<T>(slots: Seq<(u32, Option<T>)>, entries: Seq<(u32, u32, T)>, k: int) -> Seq<
    (u32, Option<T>),
> {
    Seq::new(
        slots.len(),
        |i: int|
            if exists|j: int| 0 <= j < k && (#[trigger] entries[j]).0 == i {
                (next_generation(slots[i].0), None::<T>)
            } else {
                slots[i]
            },
    )
}

/// Removes every live value, returning each with its handle, in slot order.
pub fn take_all<T>(store: &mut Store<T>) -> (r: Vec<(Handle<T>, T)>)
    requires
        old(store).wf(),
    ensures
        final(store).wf(),
        r@.len() == live_entries(old(store).slot_view()).len(),
        forall|k: int|
            0 <= k < r@.len() ==> {
                let e = live_entries(old(store).slot_view())[k];
                &&& (#[trigger] r@[k]).0.index == e.0
                &&& r@[k].0.generation == e.1
                &&& r@[k].1 == e.2
            },
        final(store).slot_view() == emptied(old(store).slot_view()),
{
    let ghost slots0 = store.slot_view();
    let ghost entries = live_entries(slots0);
    proof {
        store.lemma_well_formed();
        lemma_live_entries(slots0);
    }
    let mut handles: Vec<Handle<T>> = Vec::new();
    {
        let it = store.iter();
        let mut j: usize = 0;
        while j < it.len()
            invariant
                j <= it@.len(),
                it@.len() == entries.len(),
                entries == live_entries(store.slot_view()),
                forall|k: int|
                    0 <= k < it@.len() ==> {
                        let e = entries[k];
                        &&& (#[trigger] it@[k]).0.index == e.0
                        &&& it@[k].0.generation == e.1
                    },
                handles@.len() == j,
                forall|k: int|
                    0 <= k < j ==> (#[trigger] handles@[k]).index == entries[k].0
                        && handles@[k].generation == entries[k].1,
            decreases it@.len() - j,
        {
            handles.push(it[j].0);
            j += 1;
        }
    }
    let mut out: Vec<(Handle<T>, T)> = Vec::new();
    let mut k: usize = 0;
    assert(cleared_upto(slots0, entries, 0) =~= slots0);
    while k < handles.len()
        invariant
            k <= handles@.len(),
            handles@.len() == entries.len(),
            entries == live_entries(slots0),
            slots0.len() <= 0x1_0000_0000,
            forall|j: int|
                0 <= j < handles@.len() ==> (#[trigger] handles@[j]).index == entries[j].0
                    && handles@[j].generation == entries[j].1,
            forall|j: int|
                0 <= j < entries.len() ==> {
                    let e = #[trigger] entries[j];
                    &&& (e.0 as int) < slots0.len()
                    &&& slots0[e.0 as int] == (e.1, Some(e.2))
                },
            forall|a: int, b: int|
                0 <= a < b < entries.len() ==> (#[trigger] entries[a]).0 < (#[trigger] entries[b]).0,
            store.wf(),
            store.slot_view() == cleared_upto(slots0, entries, k as int),
            out@.len() == k,
            forall|j: int|
                0 <= j < k ==> {
                    let e = entries[j];
                    &&& (#[trigger] out@[j]).0.index == e.0
                    &&& out@[j].0.generation == e.1
                    &&& out@[j].1 == e.2
                },
        decreases handles@.len() - k,
    {
        let h = handles[k];
        let ghost e = entries[k as int];
        let ghost cur = store.slot_view();
        proof {
            assert(!(exists|j: int| 0 <= j < k && (#[trigger] entries[j]).0 == e.0)) by {
                if exists|j: int| 0 <= j < k && (#[trigger] entries[j]).0 == e.0 {
                    let j = choose|j: int| 0 <= j < k && (#[trigger] entries[j]).0 == e.0;
                    assert(entries[j].0 < entries[k as int].0);
                }
            }
            assert(cur[e.0 as int] == slots0[e.0 as int]);
            assert(store.lookup(h) == Some(e.2));
        }
        match store.remove(h) {
            Some(v) => {
                out.push((h, v));
            },
            None => {},
        }
        proof {
            assert(store.slot_view() =~= cleared_upto(slots0, entries, k + 1)) by {
                assert forall|i: int| 0 <= i < slots0.len() implies #[trigger] store.slot_view()[i]
                    == cleared_upto(slots0, entries, k + 1)[i] by {
                    if i == e.0 {
                        assert(entries[k as int].0 == i);
                    } else {
                        if exists|j: int| 0 <= j < k + 1 && (#[trigger] entries[j]).0 == i {
                            let j = choose|j: int| 0 <= j < k + 1 && (#[trigger] entries[j]).0 == i;
                            assert(j < k);
                        }
                    }
                }
            }
        }
        k += 1;
    }
    proof {
        assert(store.slot_view() =~= emptied(slots0)) by {
            assert forall|i: int| 0 <= i < slots0.len() implies #[trigger] store.slot_view()[i]
                == emptied(slots0)[i] by {
                if slots0[i].1 is Some {
                    let q = choose|q: int| 0 <= q < entries.len() && entries[q].0 == i;
                    assert(entries[q].0 == i);
                } else {
                    if exists|j: int| 0 <= j < entries.len() && (#[trigger] entries[j]).0 == i {
                        let j = choose|j: int| 0 <= j < entries.len() && (#[trigger] entries[j]).0 == i;
                        assert(slots0[entries[j].0 as int] == (entries[j].1, Some(entries[j].2)));
                    }
                }
            }
        }
    }
    out
}


/// Moves every live value of `src` into `dst` in slot order, as an import merges one
/// store into another, and returns each value's handle in `src` with its new handle in
/// `dst`. Values already in `dst` keep resolving as before.
pub fn move_all<T>(src: &mut Store<T>, dst: &mut Store<T>) -> (r: Vec<(Handle<T>, Handle<T>)>)
    requires
        old(src).wf(),
        old(dst).wf(),
        old(dst).slot_view().len() + live_entries(old(src).slot_view()).len() <= 0x1_0000_0000,
    ensures
        final(src).wf(),
        final(dst).wf(),
        final(src).slot_view() == emptied(old(src).slot_view()),
        r@.len() == live_entries(old(src).slot_view()).len(),
        forall|k: int|
            0 <= k < r@.len() ==> {
                let e = live_entries(old(src).slot_view())[k];
                &&& (#[trigger] r@[k]).0.index == e.0
                &&& r@[k].0.generation == e.1
                &&& final(dst).lookup(r@[k].1) == Some(e.2)
            },
        forall|k: int, l: int|
            0 <= k < l < r@.len() ==> (#[trigger] r@[k]).1.index != (#[trigger] r@[l]).1.index,
        forall|h: Handle<T>|
            old(dst).lookup(h) is Some ==> #[trigger] final(dst).lookup(h) == old(dst).lookup(h),
{
    let ghost dst0 = *dst;
    let mut items = take_all(src);
    let ghost items0 = items@;
    let ghost n = items0.len();
    let mut rev: Vec<(Handle<T>, T)> = Vec::new();
    while items.len() > 0
        invariant
            n == items0.len(),
            items@.len() + rev@.len() == n,
            items@ == items0.take(items@.len() as int),
            forall|j: int| 0 <= j < rev@.len() ==> #[trigger] rev@[j] == items0[n - 1 - j],
        decreases items@.len(),
    {
        let ghost before = items@;
        let ghost m = before.len() as int;
        let x = items.pop().unwrap();
        assert(x == before[m - 1]);
        assert(before[m - 1] == items0[m - 1]);
        assert(items@ =~= items0.take(items@.len() as int));
        let ghost r0 = rev@;
        rev.push(x);
        assert forall|j: int| 0 <= j < rev@.len() implies #[trigger] rev@[j] == items0[n - 1 - j] by {
            if j < r0.len() {
                assert(rev@[j] == r0[j]);
            } else {
                assert(n - 1 - j == m - 1);
            }
        }
    }
    let mut out: Vec<(Handle<T>, Handle<T>)> = Vec::new();
    while rev.len() > 0
        invariant
            out@.len() + rev@.len() == n,
            n == items0.len(),
            forall|j: int| 0 <= j < rev@.len() ==> #[trigger] rev@[j] == items0[n - 1 - j],
            dst.wf(),
            dst.slot_view().len() + rev@.len() <= 0x1_0000_0000,
            forall|k: int|
                0 <= k < out@.len() ==> {
                    &&& (#[trigger] out@[k]).0 == items0[k].0
                    &&& dst.lookup(out@[k].1) == Some(items0[k].1)
                },
            forall|k: int, l: int|
                0 <= k < l < out@.len() ==> (#[trigger] out@[k]).1.index != (#[trigger] out@[l]).1.index,
            forall|h: Handle<T>|
                dst0.lookup(h) is Some ==> #[trigger] dst.lookup(h) == dst0.lookup(h),
        decreases rev@.len(),
    {
        let (h, v) = rev.pop().unwrap();
        let ghost before = *dst;
        let ghost k = out@.len() as int;
        assert((h, v) == items0[k]);
        proof {
            before.lemma_well_formed();
        }
        let h2 = dst.insert(v);
        proof {
            assert forall|g: Handle<T>| before.lookup(g) is Some implies #[trigger] dst.lookup(g)
                == before.lookup(g) by {
                law_insert_keeps_live_handles(
                    before.slot_view(),
                    before.free_view(),
                    v,
                    g.index,
                    g.generation,
                );
            }
            assert forall|j: int| 0 <= j < k implies (#[trigger] out@[j]).1.index != h2.index by {
                let g = out@[j].1;
                assert(before.lookup(g) is Some);
                if before.free_view().len() > 0 {
                    let i = before.free_view().last();
                    assert(before.free_view()[before.free_view().len() - 1] == i);
                } else {
                }
            }
        }
        out.push((h, h2));
        proof {
            assert forall|j: int| 0 <= j < out@.len() implies {
                &&& (#[trigger] out@[j]).0 == items0[j].0
                &&& dst.lookup(out@[j].1) == Some(items0[j].1)
            } by {
                if j < k {
                    assert(before.lookup(out@[j].1) == Some(items0[j].1));
                }
            }
        }
    }
    out
}

/// The `(index, generation)` of a handle, if there is one.
pub open spec fn handle_key<T>(h: Option<Handle<T>>) -> Option<(u32, u32)> {
    match h {
        Some(x) => Some((x.index, x.generation)),
        None => None,
    }
}

/// The `(index, generation)` of the new handle that the first pair of `map` whose old
/// handle has `h`'s index and generation records, or `None` when no pair does.
pub open spec fn first_remap<T>(map: Seq<(Handle<T>, Handle<T>)>, h: Handle<T>) -> Option<(u32, u32)>
    decreases map.len(),
{
    if map.len() == 0 {
        None
    } else if map[0].0.index == h.index && map[0].0.generation == h.generation {
        Some((map[0].1.index, map[0].1.generation))
    } else {
        first_remap(map.drop_first(), h)
    }
}

/// The new handle a move map records for `h` (the first pair whose old handle has the
/// same index and generation), or `None` when `h` is not in it.
pub fn remap_handle<T>(map: &Vec<(Handle<T>, Handle<T>)>, h: Handle<T>) -> (r: Option<Handle<T>>)
    ensures
        handle_key(r) == first_remap(map@, h),
        match r {
            Some(n) => exists|k: int|
                0 <= k < map@.len() && (#[trigger] map@[k]).0.index == h.index && map@[k].0.generation
                    == h.generation && map@[k].1.index == n.index && map@[k].1.generation
                    == n.generation && forall|j: int|
                    0 <= j < k ==> !((#[trigger] map@[j]).0.index == h.index && map@[j].0.generation
                        == h.generation),
            None => forall|k: int|
                0 <= k < map@.len() ==> !((#[trigger] map@[k]).0.index == h.index
                    && map@[k].0.generation == h.generation),
        },
{
    let mut k: usize = 0;
    assert(map@.subrange(0, map@.len() as int) =~= map@);
    while k < map.len()
        invariant
            k <= map@.len(),
            forall|j: int|
                0 <= j < k ==> !((#[trigger] map@[j]).0.index == h.index && map@[j].0.generation
                    == h.generation),
            first_remap(map@, h) == first_remap(map@.subrange(k as int, map@.len() as int), h),
        decreases map@.len() - k,
    {
        let (a, b) = map[k];
        if a.index == h.index && a.generation == h.generation {
            return Some(b);
        }
        proof {
            assert(map@.subrange(k as int, map@.len() as int).drop_first() =~= map@.subrange(
                k + 1,
                map@.len() as int,
            ));
        }
        k += 1;
    }
    None
}

/// Moves every live value of the store `src` into `dst`, as merging an imported scene
/// does, and returns each value's old handle with its new one (in slot order). Values
/// already in `dst` keep resolving as before.
pub fn absorb_store<T>(dst: &mut Store<T>, src: Store<T>) -> (map: Vec<(Handle<T>, Handle<T>)>)
    requires
        old(dst).wf(),
        src.wf(),
        old(dst).slot_view().len() + live_entries(src.slot_view()).len() <= 0x1_0000_0000,
    ensures
        final(dst).wf(),
        map@.len() == live_entries(src.slot_view()).len(),
        forall|k: int|
            0 <= k < map@.len() ==> {
                let e = live_entries(src.slot_view())[k];
                &&& (#[trigger] map@[k]).0.index == e.0
                &&& map@[k].0.generation == e.1
                &&& final(dst).lookup(map@[k].1) == Some(e.2)
            },
        forall|k: int, l: int|
            0 <= k < l < map@.len() ==> (#[trigger] map@[k]).1.index != (#[trigger] map@[l]).1.index,
        forall|h: Handle<T>|
            old(dst).lookup(h) is Some ==> #[trigger] final(dst).lookup(h) == old(dst).lookup(h),
{
    let mut src = src;
    move_all(&mut src, dst)
}

/// The parent a moved node gets: `parent` for the moved subtree's root `src_root`, and
/// otherwise the new handle of its old parent (none when it had none or the parent was
/// not moved).
pub fn remap_parent<T>(
    map: &Vec<(Handle<T>, Handle<T>)>,
    h: Handle<T>,
    src_root: Handle<T>,
    parent: Option<Handle<T>>,
    old_parent: Option<Handle<T>>,
) -> (r: Option<Handle<T>>)
    ensures
        h.index == src_root.index && h.generation == src_root.generation ==> r == parent,
        !(h.index == src_root.index && h.generation == src_root.generation) ==> match old_parent {
            None => r is None,
            Some(p) => match r {
                Some(n) => exists|k: int|
                    0 <= k < map@.len() && (#[trigger] map@[k]).0.index == p.index
                        && map@[k].0.generation == p.generation && map@[k].1.index == n.index
                        && map@[k].1.generation == n.generation && forall|j: int|
                        0 <= j < k ==> !((#[trigger] map@[j]).0.index == p.index
                            && map@[j].0.generation == p.generation),
                None => forall|k: int|
                    0 <= k < map@.len() ==> !((#[trigger] map@[k]).0.index == p.index
                        && map@[k].0.generation == p.generation),
            },
        },
{
    if h.index == src_root.index && h.generation == src_root.generation {
        parent
    } else {
        match old_parent {
            Some(p) => remap_handle(map, p),
            None => None,
        }
    }
}

/// A store operation, for reasoning about sequences of calls: `Insert(v)` is a call
/// `insert(v)`, `Remove(index, generation)` a call `remove` with that handle.
pub enum StoreOp<T> {
    Insert(T),
    Remove(u32, u32),
}

/// One operation on the slot and free-list views: the new views, the handle `insert`
/// returns, and the slot a successful `remove` freed (an insert that a well-formed store
/// cannot take, with no free slot and no room left, changes nothing). `insert` and
/// `remove` each ensure that their call is exactly this step, so `run_ops` gives the
/// views and handles of any sequence of calls.
pub open spec fn op_step<T>(slots: Seq<(u32, Option<T>)>, free: Seq<u32>, op: StoreOp<T>) -> (
    Seq<(u32, Option<T>)>,
    Seq<u32>,
    Option<(u32, u32)>,
    Option<u32>,
) {
    match op {
        StoreOp::Insert(v) => if free.len() > 0 && (free.last() as int) < slots.len() {
            let i = free.last();
            (
                slots.update(i as int, (slots[i as int].0, Some(v))),
                free.drop_last(),
                Some((i, slots[i as int].0)),
                None,
            )
        } else if free.len() == 0 && slots.len() < 0x1_0000_0000 {
            (slots.push((0u32, Some(v))), free, Some((slots.len() as u32, 0u32)), None)
        } else {
            (slots, free, None, None)
        },
        StoreOp::Remove(index, generation) => if resolve(slots, index, generation) is Some {
            (
                slots.update(index as int, (next_generation(generation), None::<T>)),
                free.push(index),
                None,
                Some(index),
            )
        } else {
            (slots, free, None, None)
        },
    }
}

/// Runs operations in order: the final views, the handles inserts returned, and the
/// slots removes freed.
pub open spec fn run_ops<T>(slots: Seq<(u32, Option<T>)>, free: Seq<u32>, ops: Seq<StoreOp<T>>) -> (
    Seq<(u32, Option<T>)>,
    Seq<u32>,
    Seq<(u32, u32)>,
    Seq<u32>,
)
    decreases ops.len(),
{
    if ops.len() == 0 {
        (slots, free, Seq::empty(), Seq::empty())
    } else {
        let (s, f, hs, rm) = run_ops(slots, free, ops.drop_last());
        let (s2, f2, h, r) = op_step(s, f, ops.last());
        (
            s2,
            f2,
            match h {
                Some(x) => hs.push(x),
                None => hs,
            },
            match r {
                Some(x) => rm.push(x),
                None => rm,
            },
        )
    }
}

/// How many times slot `i` occurs in `rm`.
pub open spec fn times_freed(rm: Seq<u32>, i: u32) -> nat
    decreases rm.len(),
{
    if rm.len() == 0 {
        0
    } else {
        times_freed(rm.drop_last(), i) + if rm.last() == i {
            1nat
        } else {
            0nat
        }
    }
}

proof fn lemma_next_generation(g: u32)
    ensures
        next_generation(g) as int == (g + 1) % 0x1_0000_0000,
{
}

proof fn lemma_stale_stays_stale<T>(
    slots: Seq<(u32, Option<T>)>,
    free: Seq<u32>,
    ops: Seq<StoreOp<T>>,
    index: u32,
    generation: u32,
)
    requires
        (index as int) < slots.len(),
        slots[index as int].0 == next_generation(generation),
    ensures
        ({
            let (s, f, hs, rm) = run_ops(slots, free, ops);
            &&& (index as int) < s.len()
            &&& s[index as int].0 as int == (generation + 1 + times_freed(rm, index)) % 0x1_0000_0000
            &&& (times_freed(rm, index) < 0xffff_ffff ==> forall|k: int|
                0 <= k < hs.len() ==> #[trigger] hs[k] != (index, generation))
        }),
    decreases ops.len(),
{
    lemma_next_generation(generation);
    if ops.len() > 0 {
        lemma_stale_stays_stale(slots, free, ops.drop_last(), index, generation);
        let (s, f, hs, rm) = run_ops(slots, free, ops.drop_last());
        let c = times_freed(rm, index);
        let (s2, f2, h, r) = op_step(s, f, ops.last());
        match ops.last() {
            StoreOp::Insert(v) => {},
            StoreOp::Remove(i2, g2) => {
                if resolve(s, i2, g2) is Some && i2 == index {
                    lemma_next_generation(g2);
                    assert(g2 == s[index as int].0);
                    assert((generation + 1 + c + 1) % 0x1_0000_0000 == ((generation + 1 + c)
                        % 0x1_0000_0000 + 1) % 0x1_0000_0000) by (nonlinear_arith);
                }
            },
        }
        let (_s9, _f9, hs9, rm9) = run_ops(slots, free, ops);
        assert(hs9 == match h {
            Some(x) => hs.push(x),
            None => hs,
        });
        assert(rm9 == match r {
            Some(x) => rm.push(x),
            None => rm,
        });
        match r {
            Some(x) => {
                assert(rm.push(x).drop_last() =~= rm);
                assert(times_freed(rm9, index) == c + if x == index {
                    1nat
                } else {
                    0nat
                });
            },
            None => {
                assert(times_freed(rm9, index) == c);
            },
        }
        assert(_s9 == s2);
        match ops.last() {
            StoreOp::Insert(v) => {
                assert(s2[index as int].0 == s[index as int].0);
                assert(r is None);
            },
            StoreOp::Remove(i2, g2) => {
                if resolve(s, i2, g2) is Some && i2 == index {
                    assert(s2[index as int].0 == next_generation(g2));
                } else {
                    assert(s2[index as int].0 == s[index as int].0);
                }
            },
        }
        assert(s2[index as int].0 as int == (generation + 1 + times_freed(rm9, index)) % 0x1_0000_0000);
        if times_freed(rm9, index) < 0xffff_ffff {
            assert(c <= times_freed(rm9, index));
            assert((generation + 1 + c) % 0x1_0000_0000 != generation as int) by (nonlinear_arith)
                requires
                    0 <= c < 0xffff_ffff,
                    0 <= generation < 0x1_0000_0000,
            ;
            assert forall|k: int| 0 <= k < hs9.len() implies #[trigger] hs9[k] != (index, generation) by {
                if k == hs.len() {
                    match ops.last() {
                        StoreOp::Insert(v) => {
                            if f.len() > 0 && (f.last() as int) < s.len() {
                                if f.last() == index {
                                    assert(hs9[k] == (index, s[index as int].0));
                                }
                            } else if f.len() == 0 && s.len() < 0x1_0000_0000 {
                                assert(hs9[k].0 as int == s.len());
                            }
                        },
                        StoreOp::Remove(i2, g2) => {},
                    }
                } else {
                    assert(hs9[k] == hs[k]);
                }
            }
        }
    }
}

/// A removed handle is never handed out again by later inserts, whatever calls of
/// `insert` and `remove` follow (see `op_step`), until its slot has been freed another
/// 2^32 - 1 times and its generation has come around: right after the remove its slot
/// carries the next generation, and every insert hands out the current generation of the
/// slot it fills (or a fresh slot).
pub proof fn law_removed_handle_never_reissued<T>(
    slots: Seq<(u32, Option<T>)>,
    free: Seq<u32>,
    index: u32,
    generation: u32,
    ops: Seq<StoreOp<T>>,
)
    requires
        resolve(slots, index, generation) is Some,
        times_freed(
            run_ops(
                slots.update(index as int, (next_generation(generation), None::<T>)),
                free.push(index),
                ops,
            ).3,
            index,
        ) < 0xffff_ffff,
    ensures
        ({
            let hs = run_ops(
                slots.update(index as int, (next_generation(generation), None::<T>)),
                free.push(index),
                ops,
            ).2;
            forall|k: int| 0 <= k < hs.len() ==> #[trigger] hs[k] != (index, generation)
        }),
{
    lemma_stale_stays_stale(
        slots.update(index as int, (next_generation(generation), None::<T>)),
        free.push(index),
        ops,
        index,
        generation,
    );
}

} // verus!
