//! A generational arena: objects live in numbered slots, and a handle names a slot
//! together with the generation the slot had when the object was put there, so a
//! handle to a freed object never reaches the object that later reuses its slot.

use vstd::prelude::*;

verus! {

/// A reference to an object in a [`Pool`]: the slot and the generation the slot had
/// when the object was put there.
#[derive(Clone, Copy, Debug, PartialEq, Eq, Hash, Structural)]
pub struct Handle {
    pub index: u32,
    pub generation: u32,
}

impl Handle {
    /// The handle that refers to nothing: generation 0 is never given to a slot.
    pub open spec fn spec_none() -> Self {
        Handle { index: 0, generation: 0 }
    }

    pub fn none() -> (h: Self)
        ensures
            h == Self::spec_none(),
    {
        Handle { index: 0, generation: 0 }
    }

    pub fn new(index: u32, generation: u32) -> (h: Self)
        ensures
            h.index == index,
            h.generation == generation,
    {
        Handle { index, generation }
    }

    pub open spec fn spec_is_none(&self) -> bool {
        self.index == 0 && self.generation == 0
    }

    pub fn is_none(&self) -> (b: bool)
        ensures
            b == self.spec_is_none(),
    {
        self.index == 0 && self.generation == 0
    }

    /// A number that identifies the handle: its slot times 2^32 plus its generation.
    pub open spec fn spec_key(&self) -> u64 {
        (self.index as int * 0x1_0000_0000 + self.generation as int) as u64
    }

    pub fn key(&self) -> (k: u64)
        ensures
            k == self.spec_key(),
    {
        (self.index as u64) * 0x1_0000_0000 + (self.generation as u64)
    }
}

/// Different handles have different keys.
pub proof fn lemma_key_injective(a: Handle, b: Handle)
    ensures
        (a.spec_key() == b.spec_key()) == (a == b),
{
    let ka = a.index as int * 0x1_0000_0000 + a.generation as int;
    let kb = b.index as int * 0x1_0000_0000 + b.generation as int;
    assert(0 <= ka < 0x1_0000_0000_0000_0000);
    assert(0 <= kb < 0x1_0000_0000_0000_0000);
    if ka == kb {
        assert(a.index == b.index);
    }
}

/// One slot of a pool: the generation the slot is at, and the object if one lives there.
pub struct PoolRecord<T> {
    pub generation: u32,
    pub payload: Option<T>,
}

/// A slot whose object was freed is reused, with its generation raised by one, by
/// a later spawn; freed slots are reused last-freed first.
pub struct Pool<T> {
    records: Vec<PoolRecord<T>>,
    free_stack: Vec<u32>,
}

/// `h` names a slot that holds an object of the current generation.
pub open spec fn slot_live<T>(v: Seq<PoolRecord<T>>, h: Handle) -> bool {
    &&& h.index < v.len()
    &&& v[h.index as int].generation == h.generation
    &&& v[h.index as int].payload is Some
}

/// The object that a live handle names.
pub open spec fn slot_get<T>(v: Seq<PoolRecord<T>>, h: Handle) -> T {
    v[h.index as int].payload->0
}

/// `h` is not live and can never become live: either it has generation 0, which no
/// slot ever has, or its slot has already reached or passed its generation.
pub open spec fn slot_dead<T>(v: Seq<PoolRecord<T>>, h: Handle) -> bool {
    ||| h.generation == 0
    ||| (h.index < v.len() && h.generation <= v[h.index as int].generation && !slot_live(v, h))
}

/// `h` is none or a handle that the pool has handed out: live, or never to be live
/// again. Spawning returns a handle that is not issued yet.
pub open spec fn slot_issued<T>(v: Seq<PoolRecord<T>>, h: Handle) -> bool {
    ||| h.generation == 0
    ||| (h.index < v.len() && h.generation <= v[h.index as int].generation)
}

/// The slots of `b` extend those of `a`, with generations at least as high.
pub open spec fn generations_grow<T, U>(a: Seq<PoolRecord<T>>, b: Seq<PoolRecord<U>>) -> bool {
    &&& a.len() <= b.len()
    &&& forall|i: int| 0 <= i < a.len() ==> (#[trigger] a[i]).generation <= b[i].generation
}

/// An issued handle stays issued while generations grow.
pub proof fn lemma_issued_grow<T, U>(a: Seq<PoolRecord<T>>, b: Seq<PoolRecord<U>>, h: Handle)
    requires
        generations_grow(a, b),
        slot_issued(a, h),
    ensures
        slot_issued(b, h),
{
    if h.generation != 0 {
        assert(a[h.index as int].generation <= b[h.index as int].generation);
    }
}

impl<T> View for Pool<T> {
    type V = Seq<PoolRecord<T>>;

    closed spec fn view(&self) -> Seq<PoolRecord<T>> {
        self.records@
    }
}

impl<T> Pool<T> {
    /// Internal consistency: every generation is at least 1, and the free stack holds
    /// distinct empty slots.
    pub closed spec fn wf(&self) -> bool {
        &&& self.records@.len() <= u32::MAX
        &&& forall|i: int| 0 <= i < self.records@.len() ==> #[trigger] self.records@[i].generation >= 1
        &&& forall|k: int|
            0 <= k < self.free_stack@.len() ==> {
                &&& #[trigger] self.free_stack@[k] < self.records@.len()
                &&& self.records@[self.free_stack@[k] as int].payload is None
            }
        &&& forall|k: int, l: int|
            0 <= k < l < self.free_stack@.len() ==> self.free_stack@[k] != self.free_stack@[l]
    }

    /// The slots freed and not yet reused, the most recently freed last.
    pub closed spec fn spec_free_slots(&self) -> Seq<u32> {
        self.free_stack@
    }

    /// The slot that the next spawn fills: the most recently freed one, if its
    /// generation can still be raised, else a new slot at the end.
    pub open spec fn next_slot(&self) -> int {
        let free = self.spec_free_slots();
        if free.len() > 0 && self@[free.last() as int].generation < u32::MAX {
            free.last() as int
        } else {
            self@.len() as int
        }
    }

    pub open spec fn live(&self, h: Handle) -> bool {
        slot_live(self@, h)
    }

    pub open spec fn get(&self, h: Handle) -> T {
        slot_get(self@, h)
    }

    pub open spec fn dead(&self, h: Handle) -> bool {
        slot_dead(self@, h)
    }

    /// Every generation in a well-formed pool is at least 1.
    pub proof fn lemma_generations_positive(&self)
        requires
            self.wf(),
        ensures
            forall|i: int| 0 <= i < self@.len() ==> #[trigger] self@[i].generation >= 1,
            self@.len() <= u32::MAX,
    {
    }

    pub fn new() -> (p: Self)
        ensures
            p.wf(),
            p@ == Seq::<PoolRecord<T>>::empty(),
            p.spec_free_slots() == Seq::<u32>::empty(),
    {
        Pool { records: Vec::new(), free_stack: Vec::new() }
    }

    /// Puts `payload` into the pool and returns its handle. A freed slot is reused
    /// with its generation raised by one; where there is none (or the slot's generation
    /// cannot be raised any more) a new slot with generation 1 is appended.
    pub fn spawn(&mut self, payload: T) -> (h: Handle)
        requires
            old(self).wf(),
            old(self)@.len() < u32::MAX,
        ensures
            final(self).wf(),
            !slot_live(old(self)@, h),
            !slot_dead(old(self)@, h),
            final(self).live(h),
            final(self).get(h) == payload,
            h.generation >= 1,
            forall|g: Handle|
                g != h ==> (#[trigger] final(self).live(g) == old(self).live(g) && (old(self).live(g)
                    ==> final(self).get(g) == old(self).get(g))),
            forall|g: Handle| #[trigger] old(self).dead(g) ==> final(self).dead(g),
            (h.index == old(self)@.len() && h.generation == 1 && final(self)@ == old(self)@.push(
                PoolRecord { generation: 1, payload: Some(payload) },
            )) || (h.index < old(self)@.len() && old(self)@[h.index as int].payload is None
                && h.generation == old(self)@[h.index as int].generation + 1 && final(self)@
                == old(self)@.update(
                h.index as int,
                PoolRecord { generation: h.generation, payload: Some(payload) },
            )),
            h.index == old(self).next_slot(),
            !slot_issued(old(self)@, h),
            generations_grow(old(self)@, final(self)@),
            final(self).spec_free_slots() == if old(self).spec_free_slots().len() > 0 {
                old(self).spec_free_slots().drop_last()
            } else {
                old(self).spec_free_slots()
            },
    {
        let mut reuse: Option<u32> = None;
        if let Some(free_index) = self.free_stack.pop() {
            if self.records[free_index as usize].generation < u32::MAX {
                reuse = Some(free_index);
            }
        }
        let h = match reuse {
            Some(index) => {
                let generation = self.records[index as usize].generation + 1;
                self.records.set(index as usize, PoolRecord { generation, payload: Some(payload) });
                Handle::new(index, generation)
            },
            None => {
                let index = self.records.len() as u32;
                self.records.push(PoolRecord { generation: 1, payload: Some(payload) });
                Handle::new(index, 1)
            },
        };
        proof {
            assert forall|g: Handle| g != h implies (#[trigger] self.live(g) == old(self).live(g) && (
            old(self).live(g) ==> self.get(g) == old(self).get(g))) by {
            }
        }
        h
    }

    pub fn is_valid_handle(&self, h: Handle) -> (b: bool)
        ensures
            b == self.live(h),
    {
        if (h.index as usize) < self.records.len() {
            let rec = &self.records[h.index as usize];
            rec.generation == h.generation && rec.payload.is_some()
        } else {
            false
        }
    }

    /// The object that `h` names, if `h` is live.
    pub fn borrow(&self, h: Handle) -> (r: Option<&T>)
        ensures
            r is Some <==> self.live(h),
            r matches Some(x) ==> *x == self.get(h),
    {
        if (h.index as usize) < self.records.len() {
            let rec = &self.records[h.index as usize];
            if rec.generation == h.generation {
                return rec.payload.as_ref();
            }
        }
        None
    }

    /// The object that `h` names, if `h` is live, to be changed in place.
    pub fn borrow_mut(&mut self, h: Handle) -> (r: Option<&mut T>)
        requires
            old(self).wf(),
        ensures
            r is Some <==> old(self).live(h),
            r matches Some(x) ==> *x == old(self).get(h) && final(self)@ == old(self)@.update(
                h.index as int,
                PoolRecord { generation: h.generation, payload: Some(*final(x)) },
            ),
            r is None ==> final(self)@ == old(self)@,
            final(self).wf(),
    {
        if (h.index as usize) < self.records.len() {
            let rec = &mut self.records[h.index as usize];
            if rec.generation == h.generation {
                return rec.payload.as_mut();
            }
        }
        None
    }

    /// Frees the object that `h` names, if `h` is live; its slot keeps its generation
    /// until a spawn reuses it.
    pub fn free(&mut self, h: Handle)
        requires
            old(self).wf(),
        ensures
            final(self).wf(),
            old(self).live(h) ==> final(self)@ == old(self)@.update(
                h.index as int,
                PoolRecord { generation: h.generation, payload: None },
            ),
            !old(self).live(h) ==> final(self)@ == old(self)@,
            final(self).spec_free_slots() == if old(self).live(h) {
                old(self).spec_free_slots().push(h.index)
            } else {
                old(self).spec_free_slots()
            },
            !final(self).live(h),
            old(self).live(h) ==> final(self).dead(h),
            generations_grow(old(self)@, final(self)@),
            forall|g: Handle|
                g != h ==> (#[trigger] final(self).live(g) == old(self).live(g) && (old(self).live(g)
                    ==> final(self).get(g) == old(self).get(g))),
            forall|g: Handle| #[trigger] old(self).dead(g) ==> final(self).dead(g),
    {
        if (h.index as usize) < self.records.len() {
            if self.records[h.index as usize].generation == h.generation
                && self.records[h.index as usize].payload.is_some() {
                let ghost old_stack = self.free_stack@;
                self.records.set(h.index as usize, PoolRecord { generation: h.generation, payload: None });
                self.free_stack.push(h.index);
                assert forall|k: int, l: int|
                    0 <= k < l < self.free_stack@.len() implies self.free_stack@[k] != self.free_stack@[l] by {
                    if l == old_stack.len() {
                        assert(self.records@[old_stack[k] as int].payload is None);
                    }
                }
                assert forall|g: Handle| g != h implies (#[trigger] self.live(g) == old(self).live(g)
                    && (old(self).live(g) ==> self.get(g) == old(self).get(g))) by {
                }
            }
        }
    }

    /// The number of slots, live or free.
    pub fn get_capacity(&self) -> (n: usize)
        ensures
            n == self@.len(),
    {
        self.records.len()
    }

    /// The handle of the object in slot `index`, if one lives there.
    pub fn handle_at(&self, index: usize) -> (r: Option<Handle>)
        requires
            self.wf(),
        ensures
            r is Some <==> (index < self@.len() && self@[index as int].payload is Some),
            r matches Some(h) ==> h.index == index && h.generation == self@[index as int].generation
                && self.live(h),
    {
        if index < self.records.len() && self.records[index].payload.is_some() {
            Some(Handle::new(index as u32, self.records[index].generation))
        } else {
            None
        }
    }
}

}
