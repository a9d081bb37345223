//! Generational handles and the pool of slots they refer to.
//!
//! A handle packs a 20-bit slot index and a 12-bit generation into one
//! 32-bit word. A handle resolves against a pool only while the slot's
//! current generation equals the handle's; removing a slot advances the
//! generation, so every handle minted before the removal goes stale at
//! once and stays stale until the generation counter wraps around.
use vstd::prelude::*;
use core::marker::PhantomData;

verus! {

/// Number of slot-index values; indices live in `[0, MAX_INDEX)`.
pub const MAX_INDEX: u32 = 0xF_FFFF;

/// Number of generation values; generations live in `[0, MAX_GENERATION)`.
pub const MAX_GENERATION: u32 = 0x1000;

const INDEX_MASK: u32 = 0xF_FFFF;

const GENERATION_MASK: u32 = 0xFFF0_0000;

const INDEX_BITS: u32 = 20;

/// A stable, generation-checked reference to a slot of a [`Pool`].
///
/// The type parameters tie a handle to the pool's payload types, so a
/// handle for one table cannot be used on another.
#[derive(Debug)]
pub struct Handle<T, U> {
    data: u32,
    _phantom1: PhantomData<T>,
    _phantom2: PhantomData<U>,
}

impl<T, U> Handle<T, U> {
    /// The slot index packed into this handle.
    pub closed spec fn spec_index(self) -> u32 {
        self.data % 0x10_0000
    }

    /// The generation packed into this handle.
    pub closed spec fn spec_generation(self) -> u32 {
        self.data / 0x10_0000
    }

    /// Whether this handle is anything other than the all-ones sentinel.
    pub closed spec fn spec_is_valid(self) -> bool {
        self.data != u32::MAX
    }

    /// Packs an index and a generation into a handle.
    pub fn new(index: u32, generation: u32) -> (r: Self)
        requires
            index < MAX_INDEX,
            generation < MAX_GENERATION,
        ensures
            r.spec_index() == index,
            r.spec_generation() == generation,
            r.spec_is_valid(),
    {
        let data: u32 = (generation << INDEX_BITS) | index;
        proof {
            assert(data == generation * 0x10_0000 + index && data != u32::MAX) by (bit_vector)
                requires
                    data == (generation << 20u32) | index,
                    index < 0xF_FFFFu32,
                    generation < 0x1000u32,
            ;
            assert(data % 0x10_0000 == index && data / 0x10_0000 == generation)
                by (nonlinear_arith)
                requires
                    data == generation * 0x10_0000 + index,
                    index < 0xF_FFFFu32,
            ;
        }
        Self { data, _phantom1: PhantomData, _phantom2: PhantomData }
    }

    /// The canonical invalid handle: the all-ones bit pattern.
    pub fn invalid() -> (r: Self)
        ensures
            !r.spec_is_valid(),
    {
        Self { data: u32::MAX, _phantom1: PhantomData, _phantom2: PhantomData }
    }

    /// Whether this handle is anything other than the invalid sentinel.
    pub fn is_valid(&self) -> (r: bool)
        ensures
            r == self.spec_is_valid(),
    {
        self.data != u32::MAX
    }

    /// The slot index packed into this handle.
    pub fn index(&self) -> (r: u32)
        ensures
            r == self.spec_index(),
            r < 0x10_0000,
    {
        let d = self.data;
        let r = d & INDEX_MASK;
        proof {
            assert(r == d % 0x10_0000) by (bit_vector)
                requires
                    r == d & 0xF_FFFFu32,
            ;
        }
        r
    }

    /// The generation packed into this handle.
    pub fn generation(&self) -> (r: u32)
        ensures
            r == self.spec_generation(),
            r < 0x1000,
    {
        let d = self.data;
        let r = (d & GENERATION_MASK) >> INDEX_BITS;
        proof {
            assert(r == d / 0x10_0000 && r < 0x1000u32) by (bit_vector)
                requires
                    r == (d & 0xFFF0_0000u32) >> 20u32,
            ;
        }
        r
    }
}

impl<T, U> Clone for Handle<T, U> {
    /// A clone resolves to the same slot as the original.
    fn clone(&self) -> (r: Self)
        ensures
            r == *self,
    {
        Self { data: self.data, _phantom1: PhantomData, _phantom2: PhantomData }
    }
}

impl<T, U> Copy for Handle<T, U> {

}

impl<T, U> Default for Handle<T, U> {
    /// The default handle is the invalid sentinel.
    fn default() -> (r: Self)
        ensures
            !r.spec_is_valid(),
    {
        Self::invalid()
    }
}

/// The backing table for handles: parallel arrays of "hot" and "cold"
/// payloads, a generation counter per slot, and a LIFO stack of free
/// slots.
#[derive(Debug)]
pub struct Pool<T, U> {
    hot: Vec<Option<T>>,
    cold: Vec<Option<U>>,
    generations: Vec<u32>,
    empty: Vec<u32>,
}

impl<T, U> Pool<T, U> {
    /// Number of slots the table currently has, occupied or free.
    pub closed spec fn num_slots(self) -> nat {
        self.hot@.len()
    }

    /// The current generation of slot `i`.
    pub closed spec fn slot_gen(self, i: int) -> u32 {
        self.generations@[i]
    }

    /// Whether slot `i` currently holds a payload.
    pub closed spec fn slot_occupied(self, i: int) -> bool {
        self.hot@[i] is Some
    }

    /// The hot payload of slot `i`.
    pub closed spec fn slot_hot(self, i: int) -> T {
        self.hot@[i]->0
    }

    /// The cold payload of slot `i`.
    pub closed spec fn slot_cold(self, i: int) -> U {
        self.cold@[i]->0
    }

    /// The stack of free slot indices; `push` reuses its top first.
    pub closed spec fn free_stack(self) -> Seq<u32> {
        self.empty@
    }

    /// Generation and payload of slot `i`, as one value.
    pub open spec fn slot_state(self, i: int) -> (u32, Option<(T, U)>) {
        (
            self.slot_gen(i),
            if self.slot_occupied(i) {
                Some((self.slot_hot(i), self.slot_cold(i)))
            } else {
                None
            },
        )
    }

    /// Number of occupied slots.
    pub open spec fn occupied_count(self) -> int {
        self.num_slots() - self.free_stack().len()
    }

    /// Whether the handle's index is in range and its generation equals
    /// the slot's current generation. This is the check every accessor
    /// performs.
    pub open spec fn gen_matches(self, h: Handle<T, U>) -> bool {
        &&& h.spec_index() < self.num_slots()
        &&& self.slot_gen(h.spec_index() as int) == h.spec_generation()
    }

    /// Whether the handle resolves to a live payload.
    pub open spec fn valid_handle(self, h: Handle<T, U>) -> bool {
        self.gen_matches(h) && self.slot_occupied(h.spec_index() as int)
    }

    /// Whether a handle whose index is in range can never resolve again
    /// (until the slot's generation wraps around).
    pub open spec fn stale_handle(self, h: Handle<T, U>) -> bool {
        &&& h.spec_index() < self.num_slots()
        &&& self.slot_gen(h.spec_index() as int) != h.spec_generation()
    }

    /// Table well-formedness: the parallel arrays agree in length, a
    /// slot is free exactly when it is on the free stack, and the free
    /// stack holds no duplicates.
    pub closed spec fn wf(self) -> bool {
        &&& self.cold@.len() == self.hot@.len()
        &&& self.generations@.len() == self.hot@.len()
        &&& self.hot@.len() <= MAX_INDEX
        &&& forall|i: int|
            0 <= i < self.hot@.len() ==> (#[trigger] self.generations@[i]) < MAX_GENERATION
        &&& forall|i: int|
            0 <= i < self.hot@.len() ==> ((#[trigger] self.hot@[i]) is Some <==> self.cold@[i]
                is Some)
        &&& forall|j: int|
            0 <= j < self.empty@.len() ==> (#[trigger] self.empty@[j]) < self.hot@.len()
        &&& forall|j: int|
            0 <= j < self.empty@.len() ==> self.hot@[(#[trigger] self.empty@[j]) as int] is None
        &&& forall|i: int|
            0 <= i < self.hot@.len() && (#[trigger] self.hot@[i]) is None ==> self.empty@.contains(
                i as u32,
            )
        &&& forall|j: int, k: int|
            0 <= j < k < self.empty@.len() ==> (#[trigger] self.empty@[j]) != (
            #[trigger] self.empty@[k])
    }

    /// Whether a `push` can be served without exhausting the index
    /// space.
    pub open spec fn has_capacity(self) -> bool {
        self.free_stack().len() > 0 || self.num_slots() < MAX_INDEX
    }

    /// An empty pool.
    pub fn new() -> (r: Self)
        ensures
            r.wf(),
            r.num_slots() == 0,
            r.free_stack() =~= Seq::<u32>::empty(),
    {
        Self { hot: Vec::new(), cold: Vec::new(), generations: Vec::new(), empty: Vec::new() }
    }

    /// Whether a `push` can be served: a freed slot awaits reuse, or
    /// the index space is not exhausted. Callers that must not abort
    /// test this before pushing.
    pub fn can_push(&self) -> (r: bool)
        requires
            self.wf(),
        ensures
            r == self.has_capacity(),
    {
        !self.empty.is_empty() || self.generations.len() < MAX_INDEX as usize
    }

    /// Stores a payload pair in a slot and returns a handle for it.
    ///
    /// The top of the free stack is reused first; only when no freed
    /// slot is available does the table grow by one slot at
    /// generation 0.
    pub fn push(&mut self, hot: T, cold: U) -> (r: Handle<T, U>)
        requires
            old(self).wf(),
            old(self).has_capacity(),
        ensures
            final(self).wf(),
            final(self).valid_handle(r),
            final(self).slot_hot(r.spec_index() as int) == hot,
            final(self).slot_cold(r.spec_index() as int) == cold,
            r.spec_generation() == final(self).slot_gen(r.spec_index() as int),
            if old(self).free_stack().len() > 0 {
                &&& r.spec_index() == old(self).free_stack().last()
                &&& r.spec_generation() == old(self).slot_gen(r.spec_index() as int)
                &&& final(self).free_stack() == old(self).free_stack().drop_last()
                &&& final(self).num_slots() == old(self).num_slots()
            } else {
                &&& r.spec_index() == old(self).num_slots()
                &&& r.spec_generation() == 0
                &&& final(self).free_stack() == old(self).free_stack()
                &&& final(self).num_slots() == old(self).num_slots() + 1
            },
            forall|i: int|
                0 <= i < old(self).num_slots() && i != r.spec_index() ==> final(self).slot_state(i)
                    == old(self).slot_state(i),
            final(self).occupied_count() == old(self).occupied_count() + 1,
    {
        if let Some(slot) = self.empty.pop() {
            let idx = slot as usize;
            self.hot[idx] = Some(hot);
            self.cold[idx] = Some(cold);
            let generation = self.generations[idx];
            proof {
                let os = old(self).free_stack();
                assert(self.empty@ =~= os.drop_last());
                assert forall|i: int|
                    0 <= i < self.hot@.len() && (#[trigger] self.hot@[i]) is None implies self
                    .empty@.contains(i as u32) by {
                    assert(old(self).hot@[i] is None);
                    assert(os.contains(i as u32));
                    let j = choose|j: int| 0 <= j < os.len() && os[j] == i as u32;
                    assert(i != idx);
                    assert(os.last() == slot);
                    assert(j != os.len() - 1);
                    assert(self.empty@[j] == i as u32);
                };
            }
            Handle::new(slot, generation)
        } else {
            let index = self.generations.len();
            self.generations.push(0);
            self.hot.push(Some(hot));
            self.cold.push(Some(cold));
            proof {
                assert forall|i: int|
                    0 <= i < self.hot@.len() && (#[trigger] self.hot@[i]) is None implies self
                    .empty@.contains(i as u32) by {
                    assert(i < old(self).hot@.len());
                    assert(old(self).hot@[i] is None);
                    assert(old(self).empty@.contains(i as u32));
                };
            }
            Handle::new(index as u32, 0)
        }
    }

    /// Whether the handle's generation matches the current generation
    /// of the slot it indexes.
    pub fn is_handle_valid(&self, handle: &Handle<T, U>) -> (r: bool)
        requires
            self.wf(),
        ensures
            r == self.gen_matches(*handle),
    {
        let index = handle.index() as usize;
        index < self.generations.len() && self.generations[index] == handle.generation()
    }

    /// Both payloads of the slot the handle refers to, or `None` for a
    /// stale, forged or out-of-range handle.
    pub fn get(&self, handle: Handle<T, U>) -> (r: Option<(&T, &U)>)
        requires
            self.wf(),
        ensures
            match r {
                Some(p) => {
                    &&& self.valid_handle(handle)
                    &&& *p.0 == self.slot_hot(handle.spec_index() as int)
                    &&& *p.1 == self.slot_cold(handle.spec_index() as int)
                },
                None => !self.valid_handle(handle),
            },
    {
        if self.is_handle_valid(&handle) {
            let index = handle.index() as usize;
            match (&self.hot[index], &self.cold[index]) {
                (Some(h), Some(c)) => Some((h, c)),
                _ => None,
            }
        } else {
            None
        }
    }

    /// The hot payload of the slot the handle refers to.
    pub fn get_hot(&self, handle: Handle<T, U>) -> (r: Option<&T>)
        requires
            self.wf(),
        ensures
            match r {
                Some(h) => self.valid_handle(handle) && *h == self.slot_hot(
                    handle.spec_index() as int,
                ),
                None => !self.valid_handle(handle),
            },
    {
        if self.is_handle_valid(&handle) {
            let index = handle.index() as usize;
            match &self.hot[index] {
                Some(h) => Some(h),
                None => None,
            }
        } else {
            None
        }
    }

    /// The cold payload of the slot the handle refers to.
    pub fn get_cold(&self, handle: Handle<T, U>) -> (r: Option<&U>)
        requires
            self.wf(),
        ensures
            match r {
                Some(c) => self.valid_handle(handle) && *c == self.slot_cold(
                    handle.spec_index() as int,
                ),
                None => !self.valid_handle(handle),
            },
    {
        if self.is_handle_valid(&handle) {
            let index = handle.index() as usize;
            match &self.cold[index] {
                Some(c) => Some(c),
                None => None,
            }
        } else {
            None
        }
    }

    /// Exclusive access to the hot payload of the slot the handle
    /// refers to.
    pub fn get_hot_mut(&mut self, handle: Handle<T, U>) -> (r: Option<&mut T>)
        requires
            old(self).wf(),
        ensures
            final(self).wf(),
            match r {
                Some(m) => {
                    &&& old(self).valid_handle(handle)
                    &&& *m == old(self).slot_hot(handle.spec_index() as int)
                    &&& final(self).slot_hot(handle.spec_index() as int) == *final(m)
                    &&& final(self).slot_occupied(handle.spec_index() as int)
                    &&& final(self).slot_cold(handle.spec_index() as int) == old(self).slot_cold(
                        handle.spec_index() as int,
                    )
                    &&& final(self).slot_gen(handle.spec_index() as int) == old(self).slot_gen(
                        handle.spec_index() as int,
                    )
                    &&& final(self).num_slots() == old(self).num_slots()
                    &&& final(self).free_stack() == old(self).free_stack()
                    &&& forall|i: int|
                        0 <= i < old(self).num_slots() && i != handle.spec_index() ==> final(self).slot_state(i) == old(self).slot_state(i)
                },
                None => !old(self).valid_handle(handle) && *final(self) == *old(self),
            },
    {
        if self.is_handle_valid(&handle) {
            let index = handle.index() as usize;
            if self.hot[index].is_some() {
                match &mut self.hot[index] {
                    Some(m) => Some(m),
                    None => None,
                }
            } else {
                None
            }
        } else {
            None
        }
    }

    /// Exclusive access to the cold payload of the slot the handle
    /// refers to.
    pub fn get_cold_mut(&mut self, handle: Handle<T, U>) -> (r: Option<&mut U>)
        requires
            old(self).wf(),
        ensures
            final(self).wf(),
            match r {
                Some(m) => {
                    &&& old(self).valid_handle(handle)
                    &&& *m == old(self).slot_cold(handle.spec_index() as int)
                    &&& final(self).slot_cold(handle.spec_index() as int) == *final(m)
                    &&& final(self).slot_occupied(handle.spec_index() as int)
                    &&& final(self).slot_hot(handle.spec_index() as int) == old(self).slot_hot(
                        handle.spec_index() as int,
                    )
                    &&& final(self).slot_gen(handle.spec_index() as int) == old(self).slot_gen(
                        handle.spec_index() as int,
                    )
                    &&& final(self).num_slots() == old(self).num_slots()
                    &&& final(self).free_stack() == old(self).free_stack()
                    &&& forall|i: int|
                        0 <= i < old(self).num_slots() && i != handle.spec_index() ==> final(self).slot_state(i) == old(self).slot_state(i)
                },
                None => !old(self).valid_handle(handle) && *final(self) == *old(self),
            },
    {
        if self.is_handle_valid(&handle) {
            let index = handle.index() as usize;
            if self.cold[index].is_some() {
                match &mut self.cold[index] {
                    Some(m) => Some(m),
                    None => None,
                }
            } else {
                None
            }
        } else {
            None
        }
    }

    /// Replaces both payloads of a valid handle's slot in place,
    /// preserving slot identity and generation, and returns the old
    /// payloads.
    pub fn replace(&mut self, handle: Handle<T, U>, hot: T, cold: U) -> (r: Option<(T, U)>)
        requires
            old(self).wf(),
        ensures
            final(self).wf(),
            match r {
                Some(p) => {
                    &&& old(self).valid_handle(handle)
                    &&& p.0 == old(self).slot_hot(handle.spec_index() as int)
                    &&& p.1 == old(self).slot_cold(handle.spec_index() as int)
                    &&& final(self).slot_state(handle.spec_index() as int) == (
                        old(self).slot_gen(handle.spec_index() as int),
                        Some((hot, cold)),
                    )
                    &&& final(self).num_slots() == old(self).num_slots()
                    &&& final(self).free_stack() == old(self).free_stack()
                    &&& forall|i: int|
                        0 <= i < old(self).num_slots() && i != handle.spec_index() ==> final(self).slot_state(i) == old(self).slot_state(i)
                },
                None => !old(self).valid_handle(handle) && *final(self) == *old(self),
            },
    {
        if self.is_handle_valid(&handle) {
            let index = handle.index() as usize;
            if self.hot[index].is_some() {
                let prev_hot = self.hot[index].take();
                let prev_cold = self.cold[index].take();
                self.hot[index] = Some(hot);
                self.cold[index] = Some(cold);
                match (prev_hot, prev_cold) {
                    (Some(h), Some(c)) => Some((h, c)),
                    _ => None,
                }
            } else {
                None
            }
        } else {
            None
        }
    }

    /// Replaces the hot payload of a valid handle's slot in place and
    /// returns the old one.
    pub fn replace_hot(&mut self, handle: Handle<T, U>, hot: T) -> (r: Option<T>)
        requires
            old(self).wf(),
        ensures
            final(self).wf(),
            match r {
                Some(h) => {
                    &&& old(self).valid_handle(handle)
                    &&& h == old(self).slot_hot(handle.spec_index() as int)
                    &&& final(self).slot_state(handle.spec_index() as int) == (
                        old(self).slot_gen(handle.spec_index() as int),
                        Some((hot, old(self).slot_cold(handle.spec_index() as int))),
                    )
                    &&& final(self).num_slots() == old(self).num_slots()
                    &&& final(self).free_stack() == old(self).free_stack()
                    &&& forall|i: int|
                        0 <= i < old(self).num_slots() && i != handle.spec_index() ==> final(self).slot_state(i) == old(self).slot_state(i)
                },
                None => !old(self).valid_handle(handle) && *final(self) == *old(self),
            },
    {
        if self.is_handle_valid(&handle) {
            let index = handle.index() as usize;
            if self.hot[index].is_some() {
                let prev_hot = self.hot[index].take();
                self.hot[index] = Some(hot);
                match prev_hot {
                    Some(h) => Some(h),
                    None => None,
                }
            } else {
                None
            }
        } else {
            None
        }
    }

    /// Replaces the cold payload of a valid handle's slot in place and
    /// returns the old one.
    pub fn replace_cold(&mut self, handle: Handle<T, U>, cold: U) -> (r: Option<U>)
        requires
            old(self).wf(),
        ensures
            final(self).wf(),
            match r {
                Some(c) => {
                    &&& old(self).valid_handle(handle)
                    &&& c == old(self).slot_cold(handle.spec_index() as int)
                    &&& final(self).slot_state(handle.spec_index() as int) == (
                        old(self).slot_gen(handle.spec_index() as int),
                        Some((old(self).slot_hot(handle.spec_index() as int), cold)),
                    )
                    &&& final(self).num_slots() == old(self).num_slots()
                    &&& final(self).free_stack() == old(self).free_stack()
                    &&& forall|i: int|
                        0 <= i < old(self).num_slots() && i != handle.spec_index() ==> final(self).slot_state(i) == old(self).slot_state(i)
                },
                None => !old(self).valid_handle(handle) && *final(self) == *old(self),
            },
    {
        if self.is_handle_valid(&handle) {
            let index = handle.index() as usize;
            if self.cold[index].is_some() {
                let prev_cold = self.cold[index].take();
                self.cold[index] = Some(cold);
                match prev_cold {
                    Some(c) => Some(c),
                    None => None,
                }
            } else {
                None
            }
        } else {
            None
        }
    }

    /// Vacates a valid handle's slot, advances the slot's generation
    /// (wrapping modulo the generation space), pushes the slot onto the
    /// free stack, and returns the evicted payloads. Removing through a
    /// handle that is already invalid is a no-op that returns `None`.
    pub fn remove(&mut self, handle: Handle<T, U>) -> (r: Option<(T, U)>)
        requires
            old(self).wf(),
        ensures
            final(self).wf(),
            match r {
                Some(p) => {
                    &&& old(self).valid_handle(handle)
                    &&& p.0 == old(self).slot_hot(handle.spec_index() as int)
                    &&& p.1 == old(self).slot_cold(handle.spec_index() as int)
                    &&& !final(self).valid_handle(handle)
                    &&& final(self).slot_state(handle.spec_index() as int) == (
                        (((old(self).slot_gen(handle.spec_index() as int) as int) + 1) % (
                        MAX_GENERATION as int)) as u32,
                        None::<(T, U)>,
                    )
                    &&& final(self).num_slots() == old(self).num_slots()
                    &&& final(self).free_stack() == old(self).free_stack().push(
                        handle.spec_index(),
                    )
                    &&& final(self).occupied_count() == old(self).occupied_count() - 1
                    &&& forall|i: int|
                        0 <= i < old(self).num_slots() && i != handle.spec_index() ==> final(self).slot_state(i) == old(self).slot_state(i)
                },
                None => !old(self).valid_handle(handle) && *final(self) == *old(self),
            },
    {
        if self.is_handle_valid(&handle) {
            let index = handle.index() as usize;
            if !self.hot[index].is_some() {
                return None;
            }
            match (self.hot[index].take(), self.cold[index].take()) {

                (Some(h), Some(c)) => {
                    self.generations[index] = (self.generations[index] + 1) % MAX_GENERATION;
                    self.empty.push(handle.index());
                    proof {
                        let ns = self.empty@;
                        let os = old(self).free_stack();
                        assert forall|j: int, k: int| 0 <= j < k < ns.len() implies (
                        #[trigger] ns[j]) != (#[trigger] ns[k]) by {
                            if k < ns.len() - 1 {
                                assert(os[j] != os[k]);
                            } else {
                                assert(ns[k] == handle.spec_index());
                                assert(old(self).hot@[ns[j] as int] is None);
                            }
                        };
                        assert forall|i: int|
                            0 <= i < self.hot@.len() && (#[trigger] self.hot@[i])
                                is None implies self.empty@.contains(i as u32) by {
                            if i == handle.spec_index() {
                                assert(ns[ns.len() - 1] == i as u32);
                            } else {
                                assert(old(self).hot@[i] is None);
                                assert(os.contains(i as u32));
                                let j = choose|j: int| 0 <= j < os.len() && os[j] == i as u32;
                                assert(ns[j] == i as u32);
                            }
                        };
                    }
                    Some((h, c))
                },
                _ => None,
            }
        } else {
            None
        }
    }

    /// The smallest occupied slot index at or after `i`, or the slot
    /// count when no occupied slot remains.
    pub open spec fn next_occupied(self, i: int) -> int
        decreases self.num_slots() - i,
    {
        if i < 0 || i >= self.num_slots() {
            self.num_slots() as int
        } else if self.slot_occupied(i) {
            i
        } else {
            self.next_occupied(i + 1)
        }
    }

    /// `next_occupied(i)` is the first occupied index at or after `i`:
    /// nothing before it (and at or after `i`) is occupied, and it is
    /// occupied itself unless it is the slot count.
    pub proof fn lemma_next_occupied(self, i: int)
        requires
            0 <= i <= self.num_slots(),
        ensures
            i <= self.next_occupied(i) <= self.num_slots(),
            self.next_occupied(i) < self.num_slots() ==> self.slot_occupied(self.next_occupied(i)),
            forall|j: int| i <= j < self.next_occupied(i) ==> !self.slot_occupied(j),
        decreases self.num_slots() - i,
    {
        if i < self.num_slots() && !self.slot_occupied(i) {
            self.lemma_next_occupied(i + 1);
        }
    }

    /// Number of occupied slots with index in `[a, b)`.
    pub open spec fn occupied_between(self, a: int, b: int) -> int
        decreases b - a,
    {
        if a >= b {
            0
        } else {
            self.occupied_between(a, b - 1) + if self.slot_occupied(b - 1) {
                1int
            } else {
                0int
            }
        }
    }

    /// The set of free slot indices below `b`.
    pub open spec fn free_set_below(self, b: int) -> Set<int> {
        Set::new(|x: int| 0 <= x < b && !self.slot_occupied(x))
    }

    /// Counting slots below `b`: every slot is either occupied or free.
    pub proof fn lemma_occupied_plus_free(self, b: int)
        requires
            0 <= b <= self.num_slots(),
        ensures
            self.free_set_below(b).finite(),
            self.occupied_between(0, b) + self.free_set_below(b).len() == b,
        decreases b,
    {
        broadcast use vstd::set::group_set_axioms;

        if b == 0 {
            assert(self.free_set_below(0) =~= Set::<int>::empty());
        } else {
            self.lemma_occupied_plus_free(b - 1);
            if self.slot_occupied(b - 1) {
                assert(self.free_set_below(b) =~= self.free_set_below(b - 1));
            } else {
                assert(self.free_set_below(b) =~= self.free_set_below(b - 1).insert(b - 1));
                assert(!self.free_set_below(b - 1).contains(b - 1));
            }
        }
    }

    /// The free stack enumerates the free slots without duplicates, so
    /// its length is exactly the number of free slots.
    pub proof fn lemma_free_stack_counts_free_slots(self)
        requires
            self.wf(),
        ensures
            self.free_stack().len() == self.free_set_below(self.num_slots() as int).len(),
    {
        broadcast use vstd::set::group_set_axioms;

        let n = self.num_slots() as int;
        let s = self.free_stack().map_values(|u: u32| u as int);
        assert(s.len() == self.free_stack().len());
        assert(s.no_duplicates()) by {
            assert forall|j: int, k: int|
                0 <= j < s.len() && 0 <= k < s.len() && j != k implies s[j] != s[k] by {
                assert(s[j] == self.free_stack()[j] as int);
                assert(s[k] == self.free_stack()[k] as int);
            };
        }
        assert(s.to_set() =~= self.free_set_below(n)) by {
            assert forall|x: int| s.to_set().contains(x) implies self.free_set_below(n).contains(
                x,
            ) by {
                let k = choose|k: int| 0 <= k < s.len() && s[k] == x;
                assert(self.free_stack()[k] as int == x);
                assert(self.hot@[x] is None);
            };
            assert forall|x: int| self.free_set_below(n).contains(x) implies s.to_set().contains(
                x,
            ) by {
                assert(self.hot@[x] is None);
                assert(self.free_stack().contains(x as u32));
                let k = choose|k: int|
                    0 <= k < self.free_stack().len() && self.free_stack()[k] == x as u32;
                assert(s[k] == x);
            };
        }
        s.unique_seq_to_set();
    }

    /// Occupancy counting law: walking every slot finds exactly
    /// `occupied_count()` occupied slots, the difference between the
    /// slot count and the free-stack length.
    pub proof fn lemma_occupancy_count(self)
        requires
            self.wf(),
        ensures
            self.occupied_between(0, self.num_slots() as int) == self.occupied_count(),
    {
        self.lemma_occupied_plus_free(self.num_slots() as int);
        self.lemma_free_stack_counts_free_slots();
    }

    /// Iteration law: walking `next_occupied` from the bottom visits
    /// only occupied slots, in ascending index order, skipping none,
    /// and the number of occupied slots equals the slot count minus
    /// the free-stack length — each `push` raises that count by one
    /// and each successful `remove` lowers it by one, so it is the
    /// number of pushes minus the number of removals.
    pub proof fn lemma_iteration_yields_occupied_slots(self)
        requires
            self.wf(),
        ensures
            self.occupied_between(0, self.num_slots() as int) == self.occupied_count(),
            forall|i: int|
                0 <= i <= self.num_slots() ==> i <= #[trigger] self.next_occupied(i)
                    <= self.num_slots(),
            forall|i: int|
                0 <= i <= self.num_slots() && #[trigger] self.next_occupied(i) < self.num_slots()
                    ==> self.slot_occupied(self.next_occupied(i)),
            forall|i: int, j: int|
                #![trigger self.next_occupied(i), self.slot_occupied(j)]
                0 <= i <= self.num_slots() && i <= j < self.next_occupied(i)
                    ==> !self.slot_occupied(j),
    {
        self.lemma_occupancy_count();
        assert forall|i: int| 0 <= i <= self.num_slots() implies i <= #[trigger] self.next_occupied(
            i,
        ) <= self.num_slots() && (self.next_occupied(i) < self.num_slots()
            ==> self.slot_occupied(self.next_occupied(i))) by {
            self.lemma_next_occupied(i);
        };
        assert forall|i: int, j: int|
            #![trigger self.next_occupied(i), self.slot_occupied(j)]
            0 <= i <= self.num_slots() && i <= j < self.next_occupied(
                i,
            ) implies !self.slot_occupied(j) by {
            self.lemma_next_occupied(i);
        };
    }

    /// At most one generation of handle can resolve against a slot:
    /// beside a valid handle, every handle for the same slot carrying a
    /// different generation is stale.
    pub proof fn lemma_single_generation_valid(self, h1: Handle<T, U>, h2: Handle<T, U>)
        requires
            self.valid_handle(h1),
            h1.spec_index() == h2.spec_index(),
            h1.spec_generation() != h2.spec_generation(),
        ensures
            self.stale_handle(h2),
            !self.valid_handle(h2),
    {
    }

    /// A stale handle stays stale across every operation that leaves
    /// its slot's generation unchanged and does not shrink the table:
    /// `push`, `replace`, the accessors, and `remove` of other slots
    /// all do. Only a wrap of the generation counter back to the
    /// handle's own generation can revive it.
    pub proof fn lemma_stale_stays_stale(p1: Self, p2: Self, h: Handle<T, U>)
        requires
            p1.stale_handle(h),
            p2.num_slots() >= p1.num_slots(),
            p2.slot_gen(h.spec_index() as int) == p1.slot_gen(h.spec_index() as int),
        ensures
            p2.stale_handle(h),
            !p2.valid_handle(h),
    {
    }

    /// A lazy, one-pass walk over the occupied slots in ascending index
    /// order.
    pub fn iter(&self) -> (it: Iter<'_, T, U>)
        ensures
            it.pool() == *self,
            it.pos() == 0,
    {
        Iter { container: self, current: 0 }
    }

    /// Empties the pool and hands the payloads over as a lazy,
    /// one-pass sequence in ascending index order.
    ///
    /// Every occupied slot is vacated and its generation advanced, so
    /// handles minted before the drain go stale; the pool is
    /// restartable only by repopulating it.
    pub fn drain(&mut self) -> (d: Drain<T, U>)
        requires
            old(self).wf(),
        ensures
            final(self).wf(),
            final(self).num_slots() == old(self).num_slots(),
            final(self).occupied_count() == 0,
            forall|i: int| 0 <= i < old(self).num_slots() ==> !final(self).slot_occupied(i),
            forall|i: int|
                0 <= i < old(self).num_slots() && old(self).slot_occupied(i) ==> final(self).slot_gen(i) == (((old(self).slot_gen(i) as int) + 1) % (
                MAX_GENERATION as int)) as u32,
            forall|i: int|
                0 <= i < old(self).num_slots() && !old(self).slot_occupied(i) ==> final(self).slot_gen(i) == old(self).slot_gen(i),
            d.num_slots() == old(self).num_slots(),
            d.pos() == 0,
            d.wf(),
            forall|i: int|
                0 <= i < old(self).num_slots() ==> d.slot_occupied(i) == old(self).slot_occupied(
                    i,
                ),
            forall|i: int|
                0 <= i < old(self).num_slots() && old(self).slot_occupied(i) ==> d.slot_hot(i)
                    == old(self).slot_hot(i) && d.slot_cold(i) == old(self).slot_cold(i),
    {
        let ghost pre = *old(self);
        let n = self.generations.len();
        let mut i: usize = 0;
        while i < n
            invariant
                pre.wf(),
                n == pre.num_slots(),
                i <= n,
                self.hot@ == pre.hot@,
                self.cold@ == pre.cold@,
                self.generations@.len() == n,
                forall|j: int|
                    0 <= j < n && j < i && pre.hot@[j] is Some ==> #[trigger] self.generations@[j]
                        == (((pre.generations@[j] as int) + 1) % (MAX_GENERATION as int)) as u32,
                forall|j: int|
                    0 <= j < n && (j >= i || pre.hot@[j] is None) ==> #[trigger] self.generations@[j]
                        == pre.generations@[j],
                forall|j: int|
                    0 <= j < n ==> (#[trigger] self.generations@[j]) < MAX_GENERATION,
                self.empty@.len() >= pre.empty@.len(),
                forall|k: int|
                    0 <= k < pre.empty@.len() ==> #[trigger] self.empty@[k] == pre.empty@[k],
                forall|k: int|
                    pre.empty@.len() <= k < self.empty@.len() ==> (#[trigger] self.empty@[k] as int)
                        < i && pre.hot@[self.empty@[k] as int] is Some,
                forall|j: int|
                    0 <= j < i && pre.hot@[j] is Some ==> self.empty@.contains(j as u32),
                forall|j: int, k: int|
                    0 <= j < k < self.empty@.len() ==> (#[trigger] self.empty@[j]) != (
                    #[trigger] self.empty@[k]),
                self.empty@.len() == pre.empty@.len() + pre.occupied_between(0, i as int),
            decreases n - i,
        {
            if self.hot[i].is_some() {
                self.generations[i] = (self.generations[i] + 1) % MAX_GENERATION;
                let ghost es = self.empty@;
                self.empty.push(i as u32);
                proof {
                    let ns = self.empty@;
                    assert(ns == es.push(i as u32));
                    assert forall|j: int, k: int| 0 <= j < k < ns.len() implies (
                    #[trigger] ns[j]) != (#[trigger] ns[k]) by {
                        if k == ns.len() - 1 {
                            assert(ns[k] == i as u32);
                            assert(ns[j] == es[j]);
                            if j < pre.empty@.len() {
                                assert(es[j] == pre.empty@[j]);
                                assert(pre.hot@[pre.empty@[j] as int] is None);
                            } else {
                                assert((es[j] as int) < i);
                            }
                        } else {
                            assert(ns[j] == es[j] && ns[k] == es[k]);
                        }
                    };
                    assert forall|j: int|
                        0 <= j < i + 1 && pre.hot@[j] is Some implies ns.contains(j as u32) by {
                        if j == i {
                            assert(ns[ns.len() - 1] == i as u32);
                        } else {
                            let k = choose|k: int| 0 <= k < es.len() && es[k] == j as u32;
                            assert(ns[k] == j as u32);
                        }
                    };
                }
            }
            i += 1;
        }
        let mut hot: Vec<Option<T>> = Vec::new();
        let mut cold: Vec<Option<U>> = Vec::new();
        core::mem::swap(&mut hot, &mut self.hot);
        core::mem::swap(&mut cold, &mut self.cold);
        let ghost gens = self.generations@;
        let ghost frees = self.empty@;
        let mut j: usize = 0;
        while j < n
            invariant
                j <= n,
                self.hot@.len() == j,
                self.cold@.len() == j,
                self.generations@ == gens,
                self.empty@ == frees,
                forall|k: int| 0 <= k < j ==> (#[trigger] self.hot@[k]) is None,
                forall|k: int| 0 <= k < j ==> (#[trigger] self.cold@[k]) is None,
            decreases n - j,
        {
            self.hot.push(None);
            self.cold.push(None);
            j += 1;
        }
        proof {
            assert forall|i2: int|
                0 <= i2 < self.hot@.len() && (#[trigger] self.hot@[i2])
                    is None implies self.empty@.contains(i2 as u32) by {
                if pre.hot@[i2] is Some {
                    assert(frees.contains(i2 as u32));
                } else {
                    assert(pre.empty@.contains(i2 as u32));
                    let k = choose|k: int|
                        0 <= k < pre.empty@.len() && pre.empty@[k] == i2 as u32;
                    assert(frees[k] == i2 as u32);
                }
            };
            pre.lemma_occupancy_count();
            assert(self.empty@.len() == n);
        }
        Drain { hot, cold, current: 0 }
    }
}

/// A lazy, one-pass walk over a pool's occupied slots in ascending
/// index order.
#[derive(Debug)]
pub struct Iter<'a, T, U> {
    container: &'a Pool<T, U>,
    current: usize,
}

impl<'a, T, U> Iter<'a, T, U> {
    /// The pool being walked.
    pub closed spec fn pool(self) -> Pool<T, U> {
        *self.container
    }

    /// The next slot index the walk will look at.
    pub closed spec fn pos(self) -> int {
        self.current as int
    }

    /// The payloads of the first occupied slot at or after the current
    /// position, or `None` when the walk is finished.
    pub fn next(&mut self) -> (r: Option<(&'a T, &'a U)>)
        requires
            old(self).pool().wf(),
            0 <= old(self).pos() <= old(self).pool().num_slots(),
        ensures
            final(self).pool() == old(self).pool(),
            ({
                let p = old(self).pool();
                let j = p.next_occupied(old(self).pos());
                match r {
                    Some(pair) => {
                        &&& j < p.num_slots()
                        &&& p.slot_occupied(j)
                        &&& *pair.0 == p.slot_hot(j)
                        &&& *pair.1 == p.slot_cold(j)
                        &&& final(self).pos() == j + 1
                    },
                    None => {
                        &&& j == p.num_slots()
                        &&& final(self).pos() == p.num_slots()
                    },
                }
            }),
    {
        proof {
            self.container.lemma_next_occupied(self.current as int);
        }
        while self.current != self.container.hot.len() && self.container.hot[self.current].is_none()
            invariant
                self.container == old(self).container,
                self.container.wf(),
                0 <= self.current <= self.container.num_slots(),
                self.container.next_occupied(old(self).pos()) == self.container.next_occupied(
                    self.current as int,
                ),
            decreases self.container.num_slots() - self.current,
        {
            self.current += 1;
        }
        if self.current == self.container.hot.len() {
            return None;
        }
        let result = match (&self.container.hot[self.current], &self.container.cold[self.current]) {
            (Some(h), Some(c)) => Some((h, c)),
            _ => None,
        };
        self.current += 1;
        result
    }
}

/// The payloads taken out of a pool by [`Pool::drain`], handed out
/// lazily in ascending index order.
pub struct Drain<T, U> {
    hot: Vec<Option<T>>,
    cold: Vec<Option<U>>,
    current: usize,
}

impl<T, U> Drain<T, U> {
    /// Number of slots the drained table had.
    pub closed spec fn num_slots(self) -> nat {
        self.hot@.len()
    }

    /// Whether drained slot `i` still holds a payload to hand out.
    pub closed spec fn slot_occupied(self, i: int) -> bool {
        self.hot@[i] is Some
    }

    /// The hot payload of drained slot `i`.
    pub closed spec fn slot_hot(self, i: int) -> T {
        self.hot@[i]->0
    }

    /// The cold payload of drained slot `i`.
    pub closed spec fn slot_cold(self, i: int) -> U {
        self.cold@[i]->0
    }

    /// The next slot index the walk will look at.
    pub closed spec fn pos(self) -> int {
        self.current as int
    }

    /// The parallel payload arrays agree in length and occupancy.
    pub closed spec fn wf(self) -> bool {
        &&& self.cold@.len() == self.hot@.len()
        &&& forall|i: int|
            0 <= i < self.hot@.len() ==> ((#[trigger] self.hot@[i]) is Some <==> self.cold@[i]
                is Some)
    }

    /// The smallest occupied slot index at or after `i`, or the slot
    /// count when no occupied slot remains.
    pub open spec fn next_occupied(self, i: int) -> int
        decreases self.num_slots() - i,
    {
        if i < 0 || i >= self.num_slots() {
            self.num_slots() as int
        } else if self.slot_occupied(i) {
            i
        } else {
            self.next_occupied(i + 1)
        }
    }

    /// The payloads of the first occupied slot at or after the current
    /// position, or `None` when the walk is finished. Handing a pair
    /// out empties its slot.
    pub fn next(&mut self) -> (r: Option<(T, U)>)
        requires
            old(self).wf(),
            0 <= old(self).pos() <= old(self).num_slots(),
        ensures
            final(self).wf(),
            final(self).num_slots() == old(self).num_slots(),
            ({
                let j = old(self).next_occupied(old(self).pos());
                match r {
                    Some(pair) => {
                        &&& j < old(self).num_slots()
                        &&& old(self).slot_occupied(j)
                        &&& pair.0 == old(self).slot_hot(j)
                        &&& pair.1 == old(self).slot_cold(j)
                        &&& final(self).pos() == j + 1
                        &&& !final(self).slot_occupied(j)
                        &&& forall|i: int|
                            0 <= i < old(self).num_slots() && i != j ==> final(self).slot_occupied(i) == old(self).slot_occupied(i)
                    },
                    None => {
                        &&& j == old(self).num_slots()
                        &&& final(self).pos() == old(self).num_slots()
                    },
                }
            }),
    {
        while self.current != self.hot.len() && self.hot[self.current].is_none()
            invariant
                self.wf(),
                self.hot@.len() == old(self).num_slots(),
                0 <= self.current <= self.hot@.len(),
                self.hot@ == old(self).hot@,
                self.cold@ == old(self).cold@,
                old(self).next_occupied(old(self).pos()) == old(self).next_occupied(
                    self.current as int,
                ),
            decreases self.hot@.len() - self.current,
        {
            self.current += 1;
        }
        if self.current == self.hot.len() {
            return None;
        }
        let result = match (self.hot[self.current].take(), self.cold[self.current].take()) {
            (Some(h), Some(c)) => Some((h, c)),
            _ => None,
        };
        self.current += 1;
        result
    }
}

/// One step of the wrapping generation successor never maps a
/// generation to itself, so `remove` always invalidates the handle it
/// consumed.
pub proof fn lemma_generation_advances(g: u32)
    requires
        g < MAX_GENERATION,
    ensures
        (((g as int) + 1) % (MAX_GENERATION as int)) as u32 != g,
{
    if g as int + 1 < MAX_GENERATION as int {
        assert((g as int + 1) % (MAX_GENERATION as int) == g as int + 1);
    } else {
        assert(g as int + 1 == MAX_GENERATION as int);
        assert((g as int + 1) % (MAX_GENERATION as int) == 0);
    }
}

} // verus!
