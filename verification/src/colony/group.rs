//! A group of 64 slots with an occupancy mask and per-slot generations.

use vstd::prelude::*;
use crate::bits::{
    bit, single, low_mask, lemma_bit_or_single, lemma_bit_xor_single, lemma_bit_and, lemma_bit_not,
    lemma_bit_zero, lemma_bit_full, lemma_low_mask, lemma_all_bits_full, lemma_bits_ext, lowest_bit,
};

verus! {

/// Number of slots in one group.
pub const GROUP_LEN: usize = 64;

/// The generation a slot gets when its value is taken out.
pub open spec fn next_generation(g: u32) -> u32 {
    if g == u32::MAX { 0 } else { (g + 1) as u32 }
}

pub struct Group<T> {
    pub occupied: u64,
    pub in_free_list: bool,
    pub generations: Vec<u32>,
    pub slots: Vec<Option<T>>,
}

impl<T> Group<T> {
    /// Both arrays hold 64 entries and bit `i` of the mask is set exactly
    /// when slot `i` holds a value.
    pub open spec fn wf(&self) -> bool {
        &&& self.generations@.len() == GROUP_LEN
        &&& self.slots@.len() == GROUP_LEN
        &&& forall|i: int| 0 <= i < 64 ==> (#[trigger] self.slots@[i] is Some <==> bit(self.occupied, i as u64))
    }

    pub open spec fn occupied_at(&self, i: int) -> bool {
        self.slots@[i] is Some
    }

    pub fn new() -> (g: Self)
        ensures
            g.wf(),
            g.occupied == 0,
            !g.in_free_list,
            forall|i: int| 0 <= i < 64 ==> #[trigger] g.generations@[i] == 0u32,
            forall|i: int| 0 <= i < 64 ==> #[trigger] g.slots@[i] is None,
    {
        let mut generations: Vec<u32> = Vec::with_capacity(GROUP_LEN);
        let mut slots: Vec<Option<T>> = Vec::with_capacity(GROUP_LEN);
        let mut i: usize = 0;
        while i < GROUP_LEN
            invariant
                i <= GROUP_LEN,
                generations@.len() == i,
                slots@.len() == i,
                forall|j: int| 0 <= j < i ==> #[trigger] generations@[j] == 0u32,
                forall|j: int| 0 <= j < i ==> #[trigger] slots@[j] is None,
            decreases GROUP_LEN - i,
        {
            generations.push(0);
            slots.push(None);
            i += 1;
        }
        let g = Group { occupied: 0, in_free_list: false, generations, slots };
        assert forall|i: int| 0 <= i < 64 implies (#[trigger] g.slots@[i] is Some <==> bit(g.occupied, i as u64)) by {
            lemma_bit_zero(i as u64);
        }
        g
    }

    pub fn is_full(&self) -> (r: bool)
        requires
            self.wf(),
        ensures
            r == (forall|i: int| 0 <= i < 64 ==> #[trigger] self.occupied_at(i)),
    {
        let r = self.occupied == !0u64;
        proof {
            if r {
                assert forall|i: int| 0 <= i < 64 implies #[trigger] self.occupied_at(i) by {
                    lemma_bit_full(i as u64);
                    assert(self.slots@[i] is Some);
                }
            } else if forall|i: int| 0 <= i < 64 ==> #[trigger] self.occupied_at(i) {
                assert forall|i: u64| i < 64 implies #[trigger] bit(self.occupied, i) by {
                    assert(self.occupied_at(i as int));
                    assert(self.slots@[i as int] is Some);
                }
                lemma_all_bits_full(self.occupied);
            }
        }
        r
    }

    pub fn slot_mask(slot: usize) -> (m: u64)
        requires
            slot < 64,
        ensures
            m == single(slot as u64),
    {
        1u64 << (slot as u64)
    }

    pub fn slot_occupied(&self, slot: usize) -> (r: bool)
        requires
            self.wf(),
            slot < 64,
        ensures
            r == self.occupied_at(slot as int),
    {
        let m = self.occupied;
        let s = slot as u64;
        let r = (m & Self::slot_mask(slot)) != 0;
        assert(((m & (1u64 << s)) != 0u64) == ((m >> s) & 1u64 == 1u64)) by (bit_vector)
            requires s < 64;
        assert(self.slots@[slot as int] is Some <==> bit(self.occupied, slot as u64));
        r
    }

    /// The slot holds a value and its generation is `generation`.
    pub fn slot_matches(&self, slot: usize, generation: u32) -> (r: bool)
        requires
            self.wf(),
            slot < 64,
        ensures
            r == (self.occupied_at(slot as int) && self.generations@[slot as int] == generation),
    {
        self.generations[slot] == generation && self.slot_occupied(slot)
    }

    pub fn insert_at(&mut self, slot: usize, value: T) -> (generation: u32)
        requires
            old(self).wf(),
            slot < 64,
            !old(self).occupied_at(slot as int),
        ensures
            final(self).wf(),
            generation == old(self).generations@[slot as int],
            final(self).slots@ == old(self).slots@.update(slot as int, Some(value)),
            final(self).generations@ == old(self).generations@,
            final(self).in_free_list == old(self).in_free_list,
            final(self).occupied == old(self).occupied | single(slot as u64),
    {
        let generation = self.generations[slot];
        self.occupied = self.occupied | Self::slot_mask(slot);
        self.slots.set(slot, Some(value));
        proof {
            assert forall|i: int| 0 <= i < 64 implies (#[trigger] self.slots@[i] is Some <==> bit(self.occupied, i as u64)) by {
                lemma_bit_or_single(old(self).occupied, slot as u64, i as u64);
                assert(old(self).slots@[i] is Some <==> bit(old(self).occupied, i as u64));
            }
        }
        generation
    }

    /// The lowest set bit of `mask`, if any.
    pub fn first_one_bit(mask: u64) -> (r: Option<usize>)
        ensures
            r is None <==> mask == 0,
            r matches Some(t) ==> t < 64 && bit(mask, t as u64) && forall|j: u64| j < t ==> !#[trigger] bit(mask, j),
    {
        if mask == 0 {
            None
        } else {
            proof {
                lowest_bit(mask);
            }
            Some(mask.trailing_zeros() as usize)
        }
    }

    pub fn initialized_mask(limit: usize) -> (m: u64)
        requires
            limit <= 64,
        ensures
            m == low_mask(limit as u64),
    {
        if limit == GROUP_LEN {
            !0u64
        } else {
            let l = limit as u64;
            assert((1u64 << l) >= 1u64) by (bit_vector)
                requires l < 64;
            (1u64 << l) - 1
        }
    }

    /// The first free slot below `limit`.
    pub fn first_free_slot_before(&self, limit: usize) -> (r: Option<usize>)
        requires
            self.wf(),
            limit <= 64,
        ensures
            r is None <==> (forall|i: int| 0 <= i < limit ==> #[trigger] self.occupied_at(i)),
            r matches Some(s) ==> s < limit && !self.occupied_at(s as int) && forall|j: int|
                0 <= j < s ==> #[trigger] self.occupied_at(j),
    {
        let initialized = Self::initialized_mask(limit);
        let free = !self.occupied & initialized;
        let r = Self::first_one_bit(free);
        proof {
            assert forall|i: u64| i < 64 implies #[trigger] bit(free, i) == (!bit(self.occupied, i) && i < limit) by {
                lemma_bit_and(!self.occupied, initialized, i);
                lemma_bit_not(self.occupied, i);
                lemma_low_mask(limit as u64, i);
            }
            match r {
                None => {
                    assert forall|i: int| 0 <= i < limit implies #[trigger] self.occupied_at(i) by {
                        lemma_bit_zero(i as u64);
                        assert(!bit(free, i as u64));
                        assert(self.slots@[i] is Some <==> bit(self.occupied, i as u64));
                    }
                },
                Some(s) => {
                    assert(bit(free, s as u64));
                    assert(self.slots@[s as int] is Some <==> bit(self.occupied, s as u64));
                    assert forall|j: int| 0 <= j < s implies #[trigger] self.occupied_at(j) by {
                        assert(!bit(free, j as u64));
                        assert(self.slots@[j] is Some <==> bit(self.occupied, j as u64));
                    }
                    if forall|i: int| 0 <= i < limit ==> #[trigger] self.occupied_at(i) {
                        assert(self.occupied_at(s as int));
                    }
                },
            }
        }
        r
    }

    /// Every slot below `limit` holds a value.
    pub fn is_full_before(&self, limit: usize) -> (r: bool)
        requires
            self.wf(),
            limit <= 64,
        ensures
            r == (forall|i: int| 0 <= i < limit ==> #[trigger] self.occupied_at(i)),
    {
        let initialized = Self::initialized_mask(limit);
        let r = (self.occupied & initialized) == initialized;
        proof {
            let m = self.occupied & initialized;
            if r {
                assert forall|i: int| 0 <= i < limit implies #[trigger] self.occupied_at(i) by {
                    lemma_bit_and(self.occupied, initialized, i as u64);
                    lemma_low_mask(limit as u64, i as u64);
                    assert(self.slots@[i] is Some <==> bit(self.occupied, i as u64));
                }
            } else if forall|i: int| 0 <= i < limit ==> #[trigger] self.occupied_at(i) {
                assert forall|i: u64| i < 64 implies #[trigger] bit(m, i) == bit(initialized, i) by {
                    lemma_bit_and(self.occupied, initialized, i);
                    lemma_low_mask(limit as u64, i);
                    if i < limit {
                        assert(self.occupied_at(i as int));
                        assert(self.slots@[i as int] is Some <==> bit(self.occupied, i));
                    }
                }
                lemma_bits_ext(m, initialized);
            }
        }
        r
    }

    pub fn get(&self, slot: usize, generation: u32) -> (r: Option<&T>)
        requires
            self.wf(),
            slot < 64,
        ensures
            r == (if self.occupied_at(slot as int) && self.generations@[slot as int] == generation {
                Some(&self.slots@[slot as int]->0)
            } else {
                None
            }),
    {
        if !self.slot_matches(slot, generation) {
            return None;
        }
        self.slots[slot].as_ref()
    }

    pub fn get_mut(&mut self, slot: usize, generation: u32) -> (r: Option<&mut T>)
        requires
            old(self).wf(),
            slot < 64,
        ensures
            (old(self).occupied_at(slot as int) && old(self).generations@[slot as int] == generation)
                == (r is Some),
            r is None ==> *final(self) == *old(self),
            r matches Some(v) ==> {
                &&& *v == old(self).slots@[slot as int]->0
                &&& final(self).slots@ == old(self).slots@.update(slot as int, Some(*final(v)))
                &&& final(self).generations@ == old(self).generations@
                &&& final(self).occupied == old(self).occupied
                &&& final(self).in_free_list == old(self).in_free_list
            },
    {
        if !self.slot_matches(slot, generation) {
            return None;
        }
        self.slots[slot].as_mut()
    }

    /// Takes the value out of a matching slot, bumping its generation.
    pub fn pop(&mut self, slot: usize, generation: u32) -> (r: Option<T>)
        requires
            old(self).wf(),
            slot < 64,
        ensures
            final(self).wf(),
            final(self).in_free_list == old(self).in_free_list,
            (old(self).occupied_at(slot as int) && old(self).generations@[slot as int] == generation)
                == (r is Some),
            r is None ==> *final(self) == *old(self),
            r is Some ==> {
                &&& r == old(self).slots@[slot as int]
                &&& final(self).slots@ == old(self).slots@.update(slot as int, None)
                &&& final(self).generations@ == old(self).generations@.update(
                    slot as int,
                    next_generation(generation),
                )
            },
    {
        if !self.slot_matches(slot, generation) {
            return None;
        }
        let old_occupied = self.occupied;
        self.occupied = self.occupied ^ Self::slot_mask(slot);
        self.generations.set(slot, generation.wrapping_add(1));
        let r = self.slots[slot].take();
        proof {
            assert forall|i: int| 0 <= i < 64 implies (#[trigger] self.slots@[i] is Some <==> bit(self.occupied, i as u64)) by {
                lemma_bit_xor_single(old_occupied, slot as u64, i as u64);
                assert(old(self).slots@[i] is Some <==> bit(old(self).occupied, i as u64));
            }
        }
        r
    }

    /// Empties every slot, bumping the generation of each slot that held a value.
    pub fn clear(&mut self)
        requires
            old(self).wf(),
        ensures
            final(self).wf(),
            final(self).occupied == 0,
            final(self).in_free_list == old(self).in_free_list,
            forall|i: int| 0 <= i < 64 ==> #[trigger] final(self).slots@[i] is None,
            forall|i: int|
                0 <= i < 64 ==> #[trigger] final(self).generations@[i] == if old(self).occupied_at(i) {
                    next_generation(old(self).generations@[i])
                } else {
                    old(self).generations@[i]
                },
    {
        while self.occupied != 0
            invariant
                self.wf(),
                self.in_free_list == old(self).in_free_list,
                forall|i: int| 0 <= i < 64 && #[trigger] self.slots@[i] is Some ==> old(self).slots@[i] is Some,
                forall|i: int|
                    0 <= i < 64 ==> #[trigger] self.generations@[i] == if old(self).occupied_at(i)
                        && !self.occupied_at(i) {
                        next_generation(old(self).generations@[i])
                    } else {
                        old(self).generations@[i]
                    },
            decreases self.occupied,
        {
            let m = self.occupied;
            proof {
                lowest_bit(m);
            }
            let slot = m.trailing_zeros() as usize;
            let g = self.generations[slot];
            self.occupied = m ^ Self::slot_mask(slot);
            self.generations.set(slot, g.wrapping_add(1));
            self.slots.set(slot, None);
            proof {
                let s = slot as u64;
                assert((m >> s) & 1u64 == 1u64 ==> (m ^ (1u64 << s)) < m) by (bit_vector)
                    requires s < 64;
                assert forall|i: int| 0 <= i < 64 implies (#[trigger] self.slots@[i] is Some <==> bit(self.occupied, i as u64)) by {
                    lemma_bit_xor_single(m, s, i as u64);
                }
                assert(old(self).slots@[slot as int] is Some);
            }
        }
        proof {
            assert forall|i: int| 0 <= i < 64 implies #[trigger] self.slots@[i] is None by {
                lemma_bit_zero(i as u64);
            }
        }
    }
}

} // verus!
