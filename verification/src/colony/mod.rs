//! A generational object table: values stay in place until removed and are
//! addressed by handles that stop matching once their value is removed.

use vstd::prelude::*;

mod group;
mod iter;

pub use group::{Group, GROUP_LEN, next_generation};
pub use iter::{
    Iter, IterMut, Cursor, masked, values_from, masked_positions, positions_in_order, before, written, same_layout,
    lemma_positions_in_order, lemma_written_layout, lemma_positions_same_masks,
};

verus! {

/// Number of bits of a handle that hold the group index.
pub const GROUP_BITS: u64 = 26;

/// Number of slots that handles can address: `2^26` groups of 64 slots.
pub const HANDLE_SLOTS: u64 = 0x1_0000_0000;

/// A packed reference to a slot: group index, slot index and generation.
#[derive(Clone, Copy)]
pub struct Handle {
    bits: u64,
}

impl Handle {
    pub closed spec fn group_index(self) -> int {
        (self.bits & 0x3ff_ffffu64) as int
    }

    pub closed spec fn slot_index(self) -> int {
        ((self.bits >> 26u64) & 63u64) as int
    }

    pub closed spec fn gen(self) -> u32 {
        (self.bits >> 32u64) as u32
    }

    /// The handle with these fields packed into its bits.
    pub closed spec fn packed(group: u64, slot: u64, generation: u32) -> Handle {
        Handle { bits: group | (slot << 26u64) | ((generation as u64) << 32u64) }
    }

    /// The (group, slot) position the handle refers to.
    pub open spec fn loc(self) -> (int, int) {
        (self.group_index(), self.slot_index())
    }

    pub proof fn lemma_ranges(self)
        ensures
            0 <= self.group_index() < 0x400_0000,
            0 <= self.slot_index() < 64,
    {
        let b = self.bits;
        assert(b & 0x3ff_ffffu64 < 0x400_0000u64) by (bit_vector);
        assert((b >> 26u64) & 63u64 < 64u64) by (bit_vector);
    }

    fn new_unchecked(group: usize, slot: u8, generation: u32) -> (h: Self)
        requires
            group < 0x400_0000,
            slot < 64,
        ensures
            h == Handle::packed(group as u64, slot as u64, generation),
            h.group_index() == group,
            h.slot_index() == slot,
            h.gen() == generation,
    {
        let g = group as u64;
        let s = slot as u64;
        let x = generation as u64;
        let bits = g | (s << 26u64) | (x << 32u64);
        assert((g | (s << 26u64) | (x << 32u64)) & 0x3ff_ffffu64 == g) by (bit_vector)
            requires g < 0x400_0000u64, s < 64u64, x < 0x1_0000_0000u64;
        assert(((g | (s << 26u64) | (x << 32u64)) >> 26u64) & 63u64 == s) by (bit_vector)
            requires g < 0x400_0000u64, s < 64u64, x < 0x1_0000_0000u64;
        assert((g | (s << 26u64) | (x << 32u64)) >> 32u64 == x) by (bit_vector)
            requires g < 0x400_0000u64, s < 64u64, x < 0x1_0000_0000u64;
        Handle { bits }
    }

    pub fn group(self) -> (r: usize)
        ensures
            r == self.group_index(),
    {
        proof {
            self.lemma_ranges();
        }
        (self.bits & 0x3ff_ffffu64) as usize
    }

    pub fn slot(self) -> (r: usize)
        ensures
            r == self.slot_index(),
    {
        proof {
            self.lemma_ranges();
        }
        ((self.bits >> 26u64) & 63u64) as usize
    }

    pub fn generation(self) -> (r: u32)
        ensures
            r == self.gen(),
    {
        (self.bits >> 32u64) as u32
    }
}

/// A handle is its group, slot and generation: two handles are the same
/// exactly when those three agree.
pub proof fn lemma_handle_eq(a: Handle, b: Handle)
    ensures
        (a == b) <==> (a.loc() == b.loc() && a.gen() == b.gen()),
{
    let x = a.bits;
    let y = b.bits;
    if a.loc() == b.loc() && a.gen() == b.gen() {
        assert(x == y) by (bit_vector)
            requires
                x & 0x3ff_ffffu64 == y & 0x3ff_ffffu64,
                (x >> 26u64) & 63u64 == (y >> 26u64) & 63u64,
                (x >> 32u64) as u32 == (y >> 32u64) as u32;
    }
}

/// Packing a handle and reading it back gives the same group, slot and
/// generation.
pub proof fn lemma_handle_fields_round_trip(group: u64, slot: u64, generation: u32)
    requires
        group < 0x400_0000,
        slot < 64,
    ensures
        Handle::packed(group, slot, generation).group_index() == group,
        Handle::packed(group, slot, generation).slot_index() == slot,
        Handle::packed(group, slot, generation).gen() == generation,
{
    let x = generation as u64;
    assert((group | (slot << 26u64) | (x << 32u64)) & 0x3ff_ffffu64 == group) by (bit_vector)
        requires group < 0x400_0000u64, slot < 64u64, x < 0x1_0000_0000u64;
    assert(((group | (slot << 26u64) | (x << 32u64)) >> 26u64) & 63u64 == slot) by (bit_vector)
        requires group < 0x400_0000u64, slot < 64u64, x < 0x1_0000_0000u64;
    assert((group | (slot << 26u64) | (x << 32u64)) >> 32u64 == x) by (bit_vector)
        requires group < 0x400_0000u64, slot < 64u64, x < 0x1_0000_0000u64;
}

/// Positions `g * 64 + s` compare like the pairs `(g, s)`.
proof fn lemma_position_lt(g: int, s: int, tg: int, ts: int)
    by (nonlinear_arith)
    requires
        0 <= g,
        0 <= tg,
        0 <= s < 64,
        0 <= ts < 64,
    ensures
        (g * 64 + s < tg * 64 + ts) == (g < tg || (g == tg && s < ts)),
{
}

/// The lowest slot `i` of group `g` with `s <= i < limit` that is not in
/// `dom`, the occupied positions.
pub open spec fn lowest_free(dom: Set<(int, int)>, g: int, s: int, limit: int) -> Option<int>
    decreases limit - s,
{
    if s >= limit {
        None
    } else if !dom.contains((g, s)) {
        Some(s)
    } else {
        lowest_free(dom, g, s + 1, limit)
    }
}

/// Where an insert puts its value: the lowest free slot of the last group
/// in `list` that has one (in the tail's group, below the tail); when no
/// listed group has one, the tail slot.
pub open spec fn insert_position(dom: Set<(int, int)>, list: Seq<usize>, tail: int) -> (int, int)
    decreases list.len(),
{
    if list.len() == 0 {
        (tail / 64, tail % 64)
    } else {
        let g = list.last() as int;
        let limit = if g == tail / 64 { tail % 64 } else { 64 };
        match lowest_free(dom, g, 0, limit) {
            Some(s) => (g, s),
            None => insert_position(dom, list.drop_last(), tail),
        }
    }
}

proof fn lemma_tail_div(tg: int, ts: int)
    by (nonlinear_arith)
    requires
        0 <= tg,
        0 <= ts < 64,
    ensures
        (tg * 64 + ts) / 64 == tg,
        (tg * 64 + ts) % 64 == ts,
{
}

/// A table of values in groups of 64 slots. Removed slots are reused by later
/// inserts, with a new generation, so that old handles no longer match.
pub struct Colony<T> {
    groups: Vec<Group<T>>,
    non_full_groups: Vec<usize>,
    tail_group: usize,
    tail_slot: usize,
    len: usize,
}

impl<T> View for Colony<T> {
    /// Occupied positions, each with its generation and value.
    type V = Map<(int, int), (u32, T)>;

    closed spec fn view(&self) -> Map<(int, int), (u32, T)> {
        Map::new(
            |k: (int, int)| self.occupied_spec(k.0, k.1),
            |k: (int, int)| (self.groups@[k.0].generations@[k.1], self.groups@[k.0].slots@[k.1]->0),
        )
    }
}

impl<T> Colony<T> {
    closed spec fn occupied_spec(&self, g: int, s: int) -> bool {
        0 <= g < self.groups@.len() && 0 <= s < 64 && self.groups@[g].slots@[s] is Some
    }

    /// The generation that a value inserted at `(g, s)` would get.
    pub closed spec fn generation_at(&self, g: int, s: int) -> u32 {
        if 0 <= g < self.groups@.len() && 0 <= s < 64 { self.groups@[g].generations@[s] } else { 0 }
    }

    /// The groups listed as having free slots; inserts look at the last one
    /// first.
    pub closed spec fn free_list(&self) -> Seq<usize> {
        self.non_full_groups@
    }

    /// Within group `g`, `lowest_free` finds what the group's occupancy
    /// says.
    proof fn lemma_lowest_free(&self, g: int, s: int, limit: int)
        requires
            0 <= g < self.groups@.len(),
            self.groups@[g].wf(),
            0 <= s <= limit <= 64,
        ensures
            (forall|i: int| s <= i < limit ==> #[trigger] self.groups@[g].occupied_at(i))
                ==> lowest_free(self@.dom(), g, s, limit) is None,
            forall|f: int| s <= f < limit && !self.groups@[g].occupied_at(f)
                && (forall|j: int| s <= j < f ==> #[trigger] self.groups@[g].occupied_at(j))
                ==> lowest_free(self@.dom(), g, s, limit) == Some(f),
        decreases limit - s,
    {
        if s < limit {
            self.lemma_lowest_free(g, s + 1, limit);
            assert(self@.dom().contains((g, s)) == self.groups@[g].occupied_at(s));
        }
    }

    /// Number of slots allocated in groups.
    pub closed spec fn slot_count(&self) -> nat {
        (self.groups@.len() * 64) as nat
    }

    /// Slots below this position have been handed out since creation or the
    /// last `clear`; inserts that find no free slot below it take it.
    pub closed spec fn tail_index(&self) -> nat {
        (self.tail_group * 64 + self.tail_slot) as nat
    }

    /// A handle matches when its slot holds a value of its generation.
    pub open spec fn live(&self, h: Handle) -> bool {
        self@.contains_key(h.loc()) && self@[h.loc()].0 == h.gen()
    }

    /// A live handle carries the generation of its slot.
    pub proof fn lemma_live_generation(&self, h: Handle)
        requires
            self.live(h),
        ensures
            self.generation_at(h.loc().0, h.loc().1) == h.gen(),
    {
    }

    /// Some slot below the tail is free.
    pub open spec fn has_free_below_tail(&self) -> bool {
        exists|g: int, s: int|
            0 <= g && 0 <= s < 64 && g * 64 + s < self.tail_index() && !#[trigger] self@.dom().contains((g, s))
    }

    /// The shape of a well-formed colony: finitely many occupied positions,
    /// all below the tail; the tail within the allocated slots; every listed
    /// group starting below the tail.
    pub proof fn lemma_shape(&self)
        requires
            self.wf(),
        ensures
            self@.dom().finite(),
            forall|p: (int, int)| #[trigger] self@.dom().contains(p)
                ==> 0 <= p.0 && 0 <= p.1 < 64 && p.0 * 64 + p.1 < self.tail_index(),
            self.tail_index() <= self.slot_count(),
            self@.len() <= self.tail_index(),
            self.slot_count() % 64 == 0,
            forall|k: int| 0 <= k < self.free_list().len()
                ==> (#[trigger] self.free_list()[k] as int) * 64 < self.tail_index(),
    {
        assert forall|p: (int, int)| #[trigger] self@.dom().contains(p)
            implies 0 <= p.0 && 0 <= p.1 < 64 && p.0 * 64 + p.1 < self.tail_index() by {
            assert(self.groups@[p.0].slots@[p.1] is Some);
        }
        let tg = self.tail_group as int;
        let ts = self.tail_slot as int;
        let n = self.groups@.len() as int;
        assert(tg * 64 + ts <= n * 64) by (nonlinear_arith)
            requires 0 <= tg <= n, 0 <= ts < 64, ts > 0 ==> tg < n;
        assert((n * 64) % 64 == 0) by (nonlinear_arith)
            requires 0 <= n;
        lemma_positions_below_len(self.tail_index());
        assert(self@.dom().subset_of(positions_below(self.tail_index() as int)));
        vstd::set_lib::lemma_len_subset(self@.dom(), positions_below(self.tail_index() as int));
        assert forall|k: int| 0 <= k < self.free_list().len()
            implies (#[trigger] self.free_list()[k] as int) * 64 < self.tail_index() by {
            assert(self.entry_ok(self.non_full_groups@[k]));
            lemma_position_lt(self.non_full_groups@[k] as int, 0, tg, ts);
        }
    }

    closed spec fn entry_ok(&self, e: usize) -> bool {
        e < self.tail_group || (e == self.tail_group && self.tail_slot > 0)
    }

    pub closed spec fn wf(&self) -> bool {
        &&& forall|g: int| 0 <= g < self.groups@.len() ==> (#[trigger] self.groups@[g]).wf()
        &&& self.tail_slot < 64
        &&& self.tail_group <= self.groups@.len()
        &&& self.tail_slot > 0 ==> self.tail_group < self.groups@.len()
        &&& forall|g: int, s: int|
            0 <= g < self.groups@.len() && 0 <= s < 64 && g * 64 + s >= self.tail_index()
                ==> #[trigger] self.groups@[g].slots@[s] is None
        &&& forall|k: int| 0 <= k < self.non_full_groups@.len() ==> self.entry_ok(#[trigger] self.non_full_groups@[k])
        &&& self@.dom().finite()
        &&& self.len == self@.len()
        &&& forall|g: int, s: int|
            0 <= g < self.groups@.len() && 0 <= s < 64 && g * 64 + s < self.tail_index()
                && #[trigger] self.groups@[g].slots@[s] is None ==> self.non_full_groups@.contains(g as usize)
        &&& forall|g: int| 0 <= g < self.groups@.len() && #[trigger] self.groups@[g].in_free_list
            ==> self.non_full_groups@.contains(g as usize) && self.has_hole(g)
    }

    /// A colony whose slots are full and free where another's are, with the
    /// same bookkeeping, is well formed when the other is.
    proof fn lemma_same_shape(old: Self, new: Self)
        requires
            old.wf(),
            new.groups@.len() == old.groups@.len(),
            new.non_full_groups == old.non_full_groups,
            new.tail_group == old.tail_group,
            new.tail_slot == old.tail_slot,
            new.len == old.len,
            forall|g: int| 0 <= g < new.groups@.len() ==> (#[trigger] new.groups@[g]).wf(),
            forall|g: int| 0 <= g < new.groups@.len() ==> (#[trigger] new.groups@[g]).in_free_list
                == old.groups@[g].in_free_list,
            forall|g: int, s: int| 0 <= g < new.groups@.len() && 0 <= s < 64
                ==> (#[trigger] new.groups@[g].slots@[s] is Some) == (old.groups@[g].slots@[s] is Some),
            new@.dom() == old@.dom(),
        ensures
            new.wf(),
    {
        assert(new@.len() == old@.len());
        assert forall|g: int| 0 <= g < new.groups@.len() && #[trigger] new.groups@[g].in_free_list
            implies new.non_full_groups@.contains(g as usize) && new.has_hole(g) by {
            assert(old.has_hole(g));
            let s = choose|s: int| 0 <= s < 64 && g * 64 + s < old.tail_index() && #[trigger] old.groups@[g].slots@[s] is None;
            assert(new.groups@[g].slots@[s] is None);
        }
    }

    /// A free slot below the tail lies in a listed group, and every listed
    /// group starts below the tail.
    proof fn lemma_hole_listed(&self, g: int, s: int)
        requires
            self.wf(),
            0 <= g,
            0 <= s < 64,
            g * 64 + s < self.tail_index(),
            !self@.dom().contains((g, s)),
        ensures
            self.free_list().contains(g as usize),
            forall|k: int| 0 <= k < self.free_list().len() ==> (#[trigger] self.free_list()[k] as int) * 64 < self.tail_index(),
    {
        lemma_position_lt(g, s, self.tail_group as int, self.tail_slot as int);
        assert(g < self.groups@.len());
        assert(self.groups@[g].slots@[s] is None);
        assert forall|k: int| 0 <= k < self.free_list().len() implies (#[trigger] self.free_list()[k] as int) * 64 < self.tail_index() by {
            assert(self.entry_ok(self.non_full_groups@[k]));
            lemma_position_lt(self.non_full_groups@[k] as int, 0, self.tail_group as int, self.tail_slot as int);
        }
    }

    /// Group `g` has a free slot below the tail.
    closed spec fn has_hole(&self, g: int) -> bool {
        exists|s: int| 0 <= s < 64 && g * 64 + s < self.tail_index() && #[trigger] self.groups@[g].slots@[s] is None
    }

    proof fn lemma_view_empty(&self)
        requires
            forall|g: int, s: int|
                0 <= g < self.groups@.len() && 0 <= s < 64 ==> #[trigger] self.groups@[g].slots@[s] is None,
        ensures
            self@ == Map::<(int, int), (u32, T)>::empty(),
    {
        assert(self@ =~= Map::<(int, int), (u32, T)>::empty());
    }

    pub fn new() -> (c: Self)
        ensures
            c.wf(),
            c@ == Map::<(int, int), (u32, T)>::empty(),
            c.slot_count() == 0,
            c.tail_index() == 0,
            c.free_list() == Seq::<usize>::empty(),
    {
        let c = Colony { groups: Vec::new(), non_full_groups: Vec::new(), tail_group: 0, tail_slot: 0, len: 0 };
        proof {
            c.lemma_view_empty();
        }
        c
    }

    /// Allocates enough groups for `capacity` values.
    pub fn with_capacity(capacity: usize) -> (c: Self)
        ensures
            c.wf(),
            c@ == Map::<(int, int), (u32, T)>::empty(),
            c.slot_count() == (capacity + 63) / 64 * 64,
            c.tail_index() == 0,
            c.free_list() == Seq::<usize>::empty(),
            forall|g: int, s: int| 0 <= s < 64 ==> #[trigger] c.generation_at(g, s) == 0u32,
    {
        let group_count = capacity / GROUP_LEN + if capacity % GROUP_LEN != 0 { 1 } else { 0 };
        let mut groups: Vec<Group<T>> = Vec::with_capacity(group_count);
        let mut i: usize = 0;
        while i < group_count
            invariant
                i <= group_count,
                groups@.len() == i,
                forall|g: int| 0 <= g < i ==> (#[trigger] groups@[g]).wf(),
                forall|g: int, s: int| 0 <= g < i && 0 <= s < 64 ==> #[trigger] groups@[g].slots@[s] is None,
                forall|g: int, s: int| 0 <= g < i && 0 <= s < 64 ==> #[trigger] groups@[g].generations@[s] == 0u32,
                forall|g: int| 0 <= g < i ==> !(#[trigger] groups@[g]).in_free_list,
            decreases group_count - i,
        {
            groups.push(Group::new());
            i += 1;
        }
        let c = Colony { groups, non_full_groups: Vec::new(), tail_group: 0, tail_slot: 0, len: 0 };
        proof {
            c.lemma_view_empty();
            assert forall|g: int, s: int| 0 <= s < 64 implies #[trigger] c.generation_at(g, s) == 0u32 by {
                if 0 <= g < c.groups@.len() {
                    assert(c.groups@[g].generations@[s] == 0u32);
                }
            }
        }
        c
    }

    pub fn len(&self) -> (r: usize)
        requires
            self.wf(),
        ensures
            r == self@.len(),
    {
        self.len
    }

    pub fn is_empty(&self) -> (r: bool)
        requires
            self.wf(),
        ensures
            r == (self@.len() == 0),
    {
        self.len == 0
    }

    pub fn capacity(&self) -> (r: usize)
        requires
            self.slot_count() <= usize::MAX,
        ensures
            r == self.slot_count(),
    {
        self.groups.len() * GROUP_LEN
    }

    fn is_initialized_slot(&self, group_index: usize, slot: usize) -> (r: bool)
        requires
            slot < 64,
            self.tail_slot < 64,
        ensures
            r == (group_index * 64 + slot < self.tail_index()),
    {
        proof {
            lemma_position_lt(group_index as int, slot as int, self.tail_group as int, self.tail_slot as int);
        }
        group_index < self.tail_group || (group_index == self.tail_group && slot < self.tail_slot)
    }
}

impl<T> Colony<T> {
    pub fn get(&self, handle: Handle) -> (r: Option<&T>)
        requires
            self.wf(),
        ensures
            r == (if self.live(handle) { Some(&self@[handle.loc()].1) } else { None }),
    {
        let g = handle.group();
        if g >= self.groups.len() {
            return None;
        }
        proof {
            handle.lemma_ranges();
            assert(self.groups@[g as int].wf());
        }
        self.groups[g].get(handle.slot(), handle.generation())
    }

    pub fn get_mut(&mut self, handle: Handle) -> (r: Option<&mut T>)
        requires
            old(self).wf(),
        ensures
            old(self).live(handle) == (r is Some),
            r is None ==> *final(self) == *old(self),
            r matches Some(v) ==> {
                &&& *v == old(self)@[handle.loc()].1
                &&& final(self).wf()
                &&& final(self)@ == old(self)@.insert(handle.loc(), (handle.gen(), *final(v)))
                &&& forall|g: int, s: int| #[trigger] final(self).generation_at(g, s) == old(self).generation_at(g, s)
                &&& final(self).slot_count() == old(self).slot_count()
                &&& final(self).tail_index() == old(self).tail_index()
            },
    {
        let g = handle.group();
        if g >= self.groups.len() {
            return None;
        }
        proof {
            handle.lemma_ranges();
            assert(self.groups@[g as int].wf());
        }
        if !self.groups[g].slot_matches(handle.slot(), handle.generation()) {
            return None;
        }
        let r = self.groups[g].get_mut(handle.slot(), handle.generation());
        proof {
            assert(after_borrow(*self)@.dom() =~= old(self)@.dom());
            if r is Some {
                assert forall|gi: int| 0 <= gi < after_borrow(*self).groups@.len()
                    implies (#[trigger] after_borrow(*self).groups@[gi]).wf() by {
                    if gi != g {
                        assert(after_borrow(*self).groups@[gi] == old(self).groups@[gi]);
                    }
                }
                Self::lemma_same_shape(*old(self), after_borrow(*self));
            }
        }
        r
    }

    pub fn remove(&mut self, handle: Handle) -> (r: Option<T>)
        requires
            old(self).wf(),
        ensures
            final(self).wf(),
            r == (if old(self).live(handle) { Some(old(self)@[handle.loc()].1) } else { None }),
            final(self)@ == (if old(self).live(handle) { old(self)@.remove(handle.loc()) } else { old(self)@ }),
            forall|g: int, s: int| #[trigger] final(self).generation_at(g, s) == if old(self).live(handle) && (g, s) == handle.loc() {
                next_generation(handle.gen())
            } else {
                old(self).generation_at(g, s)
            },
            final(self).slot_count() == old(self).slot_count(),
            final(self).tail_index() == old(self).tail_index(),
            final(self)@.len() == if old(self).live(handle) { old(self)@.len() - 1 } else { old(self)@.len() as int },
            old(self).live(handle) ==> final(self).free_list() == old(self).free_list()
                || final(self).free_list() == old(self).free_list().push(handle.loc().0 as usize),
            !old(self).live(handle) ==> final(self).free_list() == old(self).free_list(),
    {
        let group_index = handle.group();
        let slot = handle.slot();
        proof {
            handle.lemma_ranges();
        }
        let is_initialized_slot = self.is_initialized_slot(group_index, slot);
        if group_index >= self.groups.len() {
            return None;
        }
        proof {
            assert(self.groups@[group_index as int].wf());
        }
        let was_full = self.groups[group_index].is_full();
        let value = self.groups[group_index].pop(slot, handle.generation());
        match value {
            None => {
                proof {
                    assert(self.groups@ =~= old(self).groups@);
                    assert(self@ =~= old(self)@);
                }
                None
            },
            Some(v) => {
                proof {
                    assert(old(self).groups@[group_index as int].slots@[slot as int] is Some);
                    assert(is_initialized_slot);
                    assert(old(self)@.contains_key(handle.loc()));
                    assert(old(self)@.dom().remove(handle.loc()).len() + 1 == old(self)@.dom().len());
                }
                if is_initialized_slot && (was_full || !self.groups[group_index].in_free_list) {
                    self.non_full_groups.push(group_index);
                    self.groups[group_index].in_free_list = true;
                }
                self.len -= 1;
                proof {
                    assert forall|g: int| 0 <= g < self.groups@.len() implies (#[trigger] self.groups@[g]).wf() by {
                        if g != group_index {
                            assert(self.groups@[g] == old(self).groups@[g]);
                        }
                    }
                    assert(self@ =~= old(self)@.remove(handle.loc()));
                    assert(self@.dom() =~= old(self)@.dom().remove(handle.loc()));
                    assert(self@.dom().finite());
                    assert(self@.len() == old(self)@.len() - 1);
                    assert forall|g: int, s: int| #[trigger] self.generation_at(g, s) == if old(self).live(handle) && (g, s) == handle.loc() {
                        next_generation(handle.gen())
                    } else {
                        old(self).generation_at(g, s)
                    } by {
                        if g != group_index && 0 <= g < self.groups@.len() {
                            assert(self.groups@[g] == old(self).groups@[g]);
                        }
                    }
                    assert forall|k: int| 0 <= k < self.non_full_groups@.len() implies self.entry_ok(#[trigger] self.non_full_groups@[k]) by {
                        if k < old(self).non_full_groups@.len() {
                            assert(old(self).entry_ok(old(self).non_full_groups@[k]));
                        }
                    }
                    let gi = group_index as int;
                    let si = slot as int;
                    assert(gi * 64 + si < self.tail_index()) by {
                        lemma_position_lt(gi, si, self.tail_group as int, self.tail_slot as int);
                    }
                    assert(self.non_full_groups@.contains(group_index)) by {
                        if self.non_full_groups@.len() > old(self).non_full_groups@.len() {
                            assert(self.non_full_groups@[self.non_full_groups@.len() - 1] == group_index);
                        } else {
                            assert(old(self).groups@[gi].in_free_list);
                        }
                    }
                    assert forall|x: usize| old(self).non_full_groups@.contains(x) implies self.non_full_groups@.contains(x) by {
                        let k = choose|k: int| 0 <= k < old(self).non_full_groups@.len() && old(self).non_full_groups@[k] == x;
                        assert(self.non_full_groups@[k] == x);
                    }
                    assert forall|g: int, s: int|
                        0 <= g < self.groups@.len() && 0 <= s < 64 && g * 64 + s < self.tail_index()
                            && #[trigger] self.groups@[g].slots@[s] is None implies self.non_full_groups@.contains(g as usize) by {
                        if g != gi || s != si {
                            if g != gi {
                                assert(self.groups@[g] == old(self).groups@[g]);
                            }
                            assert(old(self).groups@[g].slots@[s] is None);
                            assert(old(self).non_full_groups@.contains(g as usize));
                        }
                    }
                    assert forall|g: int| 0 <= g < self.groups@.len() && #[trigger] self.groups@[g].in_free_list
                        implies self.non_full_groups@.contains(g as usize) && self.has_hole(g) by {
                        if g == gi {
                            assert(self.groups@[gi].slots@[si] is None);
                        } else {
                            assert(self.groups@[g] == old(self).groups@[g]);
                            assert(old(self).has_hole(g));
                            let w = choose|w: int| 0 <= w < 64 && g * 64 + w < old(self).tail_index()
                                && #[trigger] old(self).groups@[g].slots@[w] is None;
                            assert(self.groups@[g].slots@[w] is None);
                            assert(old(self).non_full_groups@.contains(g as usize));
                        }
                    }
                }
                Some(v)
            },
        }
    }
}

impl<T> Colony<T> {
    /// Requirements for inserting: the slot the value goes to can be named
    /// by a handle (the tail slot when no slot below it is free), and the
    /// count of values can grow by one.
    pub open spec fn can_insert(&self) -> bool {
        &&& self.tail_index() <= HANDLE_SLOTS
        &&& self.tail_index() == HANDLE_SLOTS ==> self.has_free_below_tail()
        &&& self@.len() < usize::MAX
    }

    /// The shared postcondition of the insert paths.
    pub open spec fn inserted(old: Self, new: Self, value: T, h: Handle) -> bool {
        &&& new.wf()
        &&& !old@.contains_key(h.loc())
        &&& 0 <= h.slot_index() < 64
        &&& h.gen() == old.generation_at(h.group_index(), h.slot_index())
        &&& new@ == old@.insert(h.loc(), (h.gen(), value))
        &&& new@.len() == old@.len() + 1
        &&& forall|g: int, s: int| #[trigger] new.generation_at(g, s) == old.generation_at(g, s)
        &&& old.tail_index() <= new.tail_index() <= old.tail_index() + 1
        &&& new.slot_count() == old.slot_count() || (new.slot_count() == old.slot_count() + 64
            && old.tail_index() == old.slot_count())
    }

    proof fn lemma_insert_view(old: Self, new: Self, g: int, s: int, value: T)
        requires
            old.wf(),
            0 <= g < new.groups@.len(),
            0 <= s < 64,
            old.groups@.len() <= new.groups@.len() <= old.groups@.len() + 1,
            !old.occupied_spec(g, s),
            forall|si: int| 0 <= si < 64 ==> #[trigger] new.groups@[g].slots@[si] == if si == s {
                Some(value)
            } else if g < old.groups@.len() {
                old.groups@[g].slots@[si]
            } else {
                None
            },
            forall|si: int| 0 <= si < 64 ==> #[trigger] new.groups@[g].generations@[si] == if g < old.groups@.len() {
                old.groups@[g].generations@[si]
            } else {
                0u32
            },
            forall|gi: int| 0 <= gi < old.groups@.len() && gi != g ==> #[trigger] new.groups@[gi] == old.groups@[gi],
            forall|gi: int, si: int| old.groups@.len() <= gi < new.groups@.len() && gi != g && 0 <= si < 64
                ==> #[trigger] new.groups@[gi].slots@[si] is None,
            forall|gi: int, si: int| old.groups@.len() <= gi < new.groups@.len() && gi != g && 0 <= si < 64
                ==> #[trigger] new.groups@[gi].generations@[si] == 0u32,
        ensures
            new@ == old@.insert((g, s), (new.groups@[g].generations@[s], value)),
            new@.dom().finite(),
            new@.len() == old@.len() + 1,
            forall|gi: int, si: int| #[trigger] new.generation_at(gi, si) == old.generation_at(gi, si),
    {
        assert forall|k: (int, int)| #[trigger] new@.dom().contains(k) == old@.dom().insert((g, s)).contains(k) by {
            if k.0 != g && 0 <= k.0 < old.groups@.len() {
                assert(new.groups@[k.0] == old.groups@[k.0]);
            }
            if k.0 == g && 0 <= k.1 < 64 {
                assert(new.groups@[g].slots@[k.1] == if k.1 == s {
                    Some(value)
                } else if g < old.groups@.len() {
                    old.groups@[g].slots@[k.1]
                } else {
                    None
                });
            }
        }
        assert(new@ =~= old@.insert((g, s), (new.groups@[g].generations@[s], value)));
        assert forall|gi: int, si: int| #[trigger] new.generation_at(gi, si) == old.generation_at(gi, si) by {
            if gi != g && 0 <= gi < old.groups@.len() {
                assert(new.groups@[gi] == old.groups@[gi]);
            }
            if gi == g && 0 <= si < 64 {
                assert(new.groups@[g].generations@[si] == old.generation_at(gi, si));
            }
        }
    }

    fn insert_tail(&mut self, value: T) -> (h: Handle)
        requires
            old(self).wf(),
            old(self).tail_index() < HANDLE_SLOTS,
            old(self)@.len() < usize::MAX,
        ensures
            Self::inserted(*old(self), *final(self), value, h),
            final(self).tail_index() == old(self).tail_index() + 1,
            h.group_index() * 64 + h.slot_index() == old(self).tail_index(),
            h.loc() == ((old(self).tail_index() as int) / 64, (old(self).tail_index() as int) % 64),
    {
        proof {
            lemma_tail_div(self.tail_group as int, self.tail_slot as int);
        }
        if self.tail_group == self.groups.len() {
            self.groups.push(Group::new());
        }
        let group_index = self.tail_group;
        let slot = self.tail_slot;
        proof {
            assert(self.groups@[group_index as int].wf());
            assert(self.groups@[group_index as int].slots@[slot as int] is None);
        }
        let generation = self.groups[group_index].insert_at(slot, value);
        self.tail_slot += 1;
        if self.tail_slot == GROUP_LEN {
            if !self.groups[group_index].is_full() {
                self.non_full_groups.push(group_index);
            }
            self.tail_group += 1;
            self.tail_slot = 0;
        }
        self.len += 1;
        proof {
            let ghost mid = *self;
            Self::lemma_insert_view(*old(self), *self, group_index as int, slot as int, value);
            let gi = group_index as int;
            let si = slot as int;
            assert(self.tail_index() == old(self).tail_index() + 1);
            assert(gi * 64 + si == old(self).tail_index());
            assert forall|x: usize| old(self).non_full_groups@.contains(x) implies self.non_full_groups@.contains(x) by {
                let k = choose|k: int| 0 <= k < old(self).non_full_groups@.len() && old(self).non_full_groups@[k] == x;
                assert(self.non_full_groups@[k] == x);
            }
            assert forall|g: int, s: int|
                0 <= g < self.groups@.len() && 0 <= s < 64 && g * 64 + s < self.tail_index()
                    && #[trigger] self.groups@[g].slots@[s] is None implies self.non_full_groups@.contains(g as usize) by {
                if g != gi && g < old(self).groups@.len() {
                    assert(self.groups@[g] == old(self).groups@[g]);
                }
                if g == gi || g >= old(self).groups@.len() {
                    lemma_position_lt(g, s, gi, si);
                }
                assert(g * 64 + s < old(self).tail_index());
                assert(old(self).groups@[g].slots@[s] is None);
                assert(old(self).non_full_groups@.contains(g as usize));
            }
            assert forall|g: int| 0 <= g < self.groups@.len() && #[trigger] self.groups@[g].in_free_list
                implies self.non_full_groups@.contains(g as usize) && self.has_hole(g) by {
                if g != gi && g < old(self).groups@.len() {
                    assert(self.groups@[g] == old(self).groups@[g]);
                }
                assert(g < old(self).groups@.len());
                assert(old(self).groups@[g].in_free_list);
                assert(old(self).has_hole(g));
                let w = choose|w: int| 0 <= w < 64 && g * 64 + w < old(self).tail_index()
                    && #[trigger] old(self).groups@[g].slots@[w] is None;
                if g == gi {
                    assert(w != si);
                }
                assert(self.groups@[g].slots@[w] is None);
                assert(old(self).non_full_groups@.contains(g as usize));
            }
            assert forall|g: int| 0 <= g < self.groups@.len() implies (#[trigger] self.groups@[g]).wf() by {
                if g != group_index && g < old(self).groups@.len() {
                    assert(self.groups@[g] == old(self).groups@[g]);
                }
            }
            assert forall|g: int, s: int|
                0 <= g < self.groups@.len() && 0 <= s < 64 && g * 64 + s >= self.tail_index()
                    implies #[trigger] self.groups@[g].slots@[s] is None by {
                if g != group_index && g < old(self).groups@.len() {
                    assert(self.groups@[g] == old(self).groups@[g]);
                }
            }
            assert forall|k: int| 0 <= k < self.non_full_groups@.len() implies self.entry_ok(#[trigger] self.non_full_groups@[k]) by {
                if k < old(self).non_full_groups@.len() {
                    assert(old(self).entry_ok(old(self).non_full_groups@[k]));
                }
            }
        }
        Handle::new_unchecked(group_index, slot as u8, generation)
    }

    #[verifier::spinoff_prover]
    #[verifier::rlimit(50)]
    fn insert_reusing_hole(&mut self, value: T) -> (h: Handle)
        requires
            old(self).wf(),
            old(self).can_insert(),
        ensures
            Self::inserted(*old(self), *final(self), value, h),
            h.loc() == insert_position(old(self)@.dom(), old(self).free_list(), old(self).tail_index() as int),
            old(self).has_free_below_tail() ==> final(self).tail_index() == old(self).tail_index()
                && final(self).slot_count() == old(self).slot_count(),
            !old(self).has_free_below_tail() ==> final(self).tail_index() == old(self).tail_index() + 1
                && h.group_index() * 64 + h.slot_index() == old(self).tail_index(),
    {
        let ghost v0 = value;
        proof {
            lemma_tail_div(self.tail_group as int, self.tail_slot as int);
        }
        while self.non_full_groups.len() > 0
            invariant
                insert_position(old(self)@.dom(), self.non_full_groups@, old(self).tail_index() as int)
                    == insert_position(old(self)@.dom(), old(self).free_list(), old(self).tail_index() as int),
                old(self).tail_index() / 64 == old(self).tail_group,
                old(self).tail_index() % 64 == old(self).tail_slot,
                value == v0,
                self.wf(),
                self.groups == old(self).groups,
                self.tail_group == old(self).tail_group,
                self.tail_slot == old(self).tail_slot,
                self.len == old(self).len,
                old(self).wf(),
                old(self).can_insert(),
            decreases self.non_full_groups@.len(),
        {
            let ghost pre = *self;
            let group_index = self.non_full_groups[self.non_full_groups.len() - 1];
            proof {
                assert(self.entry_ok(self.non_full_groups@[self.non_full_groups@.len() - 1]));
                assert(self.groups@[group_index as int].wf());
                assert forall|x: usize| pre.non_full_groups@.contains(x) && x != group_index
                    implies pre.non_full_groups@.drop_last().contains(x) by {
                    let k = choose|k: int| 0 <= k < pre.non_full_groups@.len() && pre.non_full_groups@[k] == x;
                    assert(k < pre.non_full_groups@.len() - 1);
                    assert(pre.non_full_groups@.drop_last()[k] == x);
                }
            }
            let slot_limit = if group_index == self.tail_group { self.tail_slot } else { GROUP_LEN };
            let found = self.groups[group_index].first_free_slot_before(slot_limit);
            proof {
                assert(self@ == old(self)@);
                self.lemma_lowest_free(group_index as int, 0, slot_limit as int);
            }
            match found {
                None => {
                    self.non_full_groups.pop();
                    proof {
                        assert(self@ =~= old(self)@);
                        let gi = group_index as int;
                        assert(self.non_full_groups@ == pre.non_full_groups@.drop_last());
                        assert forall|g: int, s: int|
                            0 <= g < self.groups@.len() && 0 <= s < 64 && g * 64 + s < self.tail_index()
                                && #[trigger] self.groups@[g].slots@[s] is None implies self.non_full_groups@.contains(g as usize) by {
                            if g == gi {
                                lemma_position_lt(gi, s, pre.tail_group as int, pre.tail_slot as int);
                                assert(self.groups@[gi].occupied_at(s));
                            }
                            assert(pre.non_full_groups@.contains(g as usize));
                        }
                        assert forall|g: int| 0 <= g < self.groups@.len() && #[trigger] self.groups@[g].in_free_list
                            implies self.non_full_groups@.contains(g as usize) && self.has_hole(g) by {
                            assert(pre.has_hole(g));
                            if g == gi {
                                let w = choose|w: int| 0 <= w < 64 && g * 64 + w < pre.tail_index()
                                    && #[trigger] pre.groups@[g].slots@[w] is None;
                                lemma_position_lt(gi, w, pre.tail_group as int, pre.tail_slot as int);
                                assert(self.groups@[gi].occupied_at(w));
                            }
                        }
                    }
                },
                Some(slot) => {
                    proof {
                        lemma_position_lt(group_index as int, slot as int, self.tail_group as int, self.tail_slot as int);
                        assert(!old(self)@.dom().contains((group_index as int, slot as int)));
                        assert(old(self).has_free_below_tail());
                    }
                    let generation = self.groups[group_index].insert_at(slot, value);
                    let ghost after_ins = self.groups@[group_index as int];
                    let is_now_full = self.groups[group_index].is_full_before(slot_limit);
                    if is_now_full {
                        self.non_full_groups.pop();
                        self.groups[group_index].in_free_list = false;
                    }
                    self.len += 1;
                    proof {
                        assert(old(self)@ =~= Map::new(
                            |k: (int, int)| old(self).occupied_spec(k.0, k.1),
                            |k: (int, int)| (old(self).groups@[k.0].generations@[k.1], old(self).groups@[k.0].slots@[k.1]->0),
                        ));
                        Self::lemma_insert_view(*old(self), *self, group_index as int, slot as int, value);
                        assert forall|g: int| 0 <= g < self.groups@.len() implies (#[trigger] self.groups@[g]).wf() by {
                            if g != group_index {
                                assert(self.groups@[g] == old(self).groups@[g]);
                            }
                        }
                        assert forall|g: int, s: int|
                            0 <= g < self.groups@.len() && 0 <= s < 64 && g * 64 + s >= self.tail_index()
                                implies #[trigger] self.groups@[g].slots@[s] is None by {
                            if g != group_index {
                                assert(self.groups@[g] == old(self).groups@[g]);
                            }
                        }
                        let gi = group_index as int;
                        let si = slot as int;
                        assert(is_now_full ==> self.non_full_groups@ == pre.non_full_groups@.drop_last());
                        assert(!is_now_full ==> self.non_full_groups@ == pre.non_full_groups@);
                        assert forall|g: int, s: int|
                            0 <= g < self.groups@.len() && 0 <= s < 64 && g * 64 + s < self.tail_index()
                                && #[trigger] self.groups@[g].slots@[s] is None implies self.non_full_groups@.contains(g as usize) by {
                            if g != gi {
                                assert(self.groups@[g] == pre.groups@[g]);
                                assert(pre.non_full_groups@.contains(g as usize));
                            } else {
                                assert(s != si);
                                assert(pre.groups@[gi].slots@[s] is None);
                                if is_now_full {
                                    lemma_position_lt(gi, s, pre.tail_group as int, pre.tail_slot as int);
                                    assert(after_ins.occupied_at(s));
                                    assert(self.groups@[gi].slots@ == after_ins.slots@);
                                } else {
                                    assert(pre.non_full_groups@[pre.non_full_groups@.len() - 1] == group_index);
                                }
                            }
                        }
                        assert forall|g: int| 0 <= g < self.groups@.len() && #[trigger] self.groups@[g].in_free_list
                            implies self.non_full_groups@.contains(g as usize) && self.has_hole(g) by {
                            if g != gi {
                                assert(self.groups@[g] == pre.groups@[g]);
                                assert(pre.has_hole(g));
                                let w = choose|w: int| 0 <= w < 64 && g * 64 + w < pre.tail_index()
                                    && #[trigger] pre.groups@[g].slots@[w] is None;
                                assert(self.groups@[g].slots@[w] is None);
                                assert(pre.non_full_groups@.contains(g as usize));
                            } else {
                                assert(!is_now_full);
                                let w = choose|w: int| 0 <= w < slot_limit && !(#[trigger] self.groups@[gi].occupied_at(w));
                                lemma_position_lt(gi, w, pre.tail_group as int, pre.tail_slot as int);
                                assert(self.groups@[gi].slots@[w] is None);
                                assert(pre.non_full_groups@[pre.non_full_groups@.len() - 1] == group_index);
                            }
                        }
                    }
                    return Handle::new_unchecked(group_index, slot as u8, generation);
                },
            }
        }
        proof {
            assert(self@ =~= old(self)@);
            assert forall|g: int, s: int| #[trigger] self.generation_at(g, s) == old(self).generation_at(g, s) by {}
            if old(self).has_free_below_tail() {
                let (g, s) = choose|g: int, s: int|
                    0 <= g && 0 <= s < 64 && g * 64 + s < old(self).tail_index() && !#[trigger] old(self)@.dom().contains((g, s));
                self.lemma_hole_listed(g, s);
            }
        }
        self.insert_tail(value)
    }

    /// Stores `value` in a free slot and returns its handle: the lowest free
    /// slot of the most recently listed group that has one, or else the
    /// tail slot.
    pub fn insert(&mut self, value: T) -> (h: Handle)
        requires
            old(self).wf(),
            old(self).can_insert(),
        ensures
            Self::inserted(*old(self), *final(self), value, h),
            h.loc() == insert_position(old(self)@.dom(), old(self).free_list(), old(self).tail_index() as int),
            old(self).has_free_below_tail() ==> {
                &&& h.group_index() * 64 + h.slot_index() < old(self).tail_index()
                &&& final(self).tail_index() == old(self).tail_index()
                &&& final(self).slot_count() == old(self).slot_count()
            },
            !old(self).has_free_below_tail() ==> {
                &&& h.group_index() * 64 + h.slot_index() == old(self).tail_index()
                &&& final(self).tail_index() == old(self).tail_index() + 1
            },
            old(self)@.len() < old(self).slot_count() ==> final(self).slot_count() == old(self).slot_count(),
    {
        let h = if self.non_full_groups.len() == 0 {
            proof {
                if old(self).has_free_below_tail() {
                    let (g, s) = choose|g: int, s: int|
                        0 <= g && 0 <= s < 64 && g * 64 + s < old(self).tail_index() && !#[trigger] old(self)@.dom().contains((g, s));
                    old(self).lemma_hole_listed(g, s);
                }
            }
            self.insert_tail(value)
        } else {
            self.insert_reusing_hole(value)
        };
        proof {
            let o = *old(self);
            if o.has_free_below_tail() {
                let (g, s) = choose|g: int, s: int|
                    0 <= g && 0 <= s < 64 && g * 64 + s < o.tail_index() && !#[trigger] o@.dom().contains((g, s));
                law_insert_fills_holes_first(o, g, s);
            } else {
                o.lemma_shape();
                lemma_positions_below_len(o.tail_index());
                assert(o@.dom() =~= positions_below(o.tail_index() as int));
            }
        }
        h
    }

    /// Removes every value; slots that held one get a new generation.
    pub fn clear(&mut self)
        requires
            old(self).wf(),
        ensures
            final(self).wf(),
            final(self)@ == Map::<(int, int), (u32, T)>::empty(),
            final(self).tail_index() == 0,
            final(self).slot_count() == old(self).slot_count(),
            final(self).free_list() == Seq::<usize>::empty(),
            forall|g: int, s: int| #[trigger] final(self).generation_at(g, s) == if old(self)@.contains_key((g, s)) {
                next_generation(old(self).generation_at(g, s))
            } else {
                old(self).generation_at(g, s)
            },
    {
        self.non_full_groups.clear();
        let n = self.groups.len();
        let mut i: usize = 0;
        while i < n
            invariant
                n == self.groups@.len(),
                n == old(self).groups@.len(),
                self.non_full_groups@.len() == 0,
                i <= n,
                old(self).wf(),
                forall|g: int| 0 <= g < n ==> (#[trigger] self.groups@[g]).wf(),
                forall|g: int| i <= g < n ==> #[trigger] self.groups@[g] == old(self).groups@[g],
                forall|g: int, s: int| 0 <= g < i && 0 <= s < 64 ==> #[trigger] self.groups@[g].slots@[s] is None,
                forall|g: int| 0 <= g < i ==> !(#[trigger] self.groups@[g]).in_free_list,
                forall|g: int, s: int| 0 <= g < i && 0 <= s < 64 ==> #[trigger] self.groups@[g].generations@[s] == if old(self).groups@[g].slots@[s] is Some {
                    next_generation(old(self).groups@[g].generations@[s])
                } else {
                    old(self).groups@[g].generations@[s]
                },
            decreases n - i,
        {
            proof {
                assert(self.groups@[i as int].wf());
            }
            self.groups[i].clear();
            self.groups[i].in_free_list = false;
            i += 1;
        }
        self.tail_group = 0;
        self.tail_slot = 0;
        self.len = 0;
        proof {
            self.lemma_view_empty();
            assert(self.free_list() =~= Seq::<usize>::empty());
            assert forall|g: int, s: int| #[trigger] self.generation_at(g, s) == if old(self)@.contains_key((g, s)) {
                next_generation(old(self).generation_at(g, s))
            } else {
                old(self).generation_at(g, s)
            } by {
                if 0 <= g < n && 0 <= s < 64 {
                    assert(old(self).groups@[g].slots@[s] is Some == old(self)@.contains_key((g, s)));
                }
            }
        }
    }
}

/// The positions `(g, s)` of slots below slot number `t`.
pub open spec fn positions_below(t: int) -> Set<(int, int)> {
    Set::new(|p: (int, int)| 0 <= p.0 && 0 <= p.1 < 64 && p.0 * 64 + p.1 < t)
}

/// There are `t` positions below slot number `t`.
pub proof fn lemma_positions_below_len(t: nat)
    ensures
        positions_below(t as int).finite(),
        positions_below(t as int).len() == t,
    decreases t,
{
    if t == 0 {
        assert(positions_below(0) =~= Set::<(int, int)>::empty());
    } else {
        let u = (t - 1) as nat;
        lemma_positions_below_len(u);
        let q = (u as int / 64, u as int % 64);
        assert forall|p: (int, int)| #[trigger] positions_below(t as int).contains(p)
            == positions_below(u as int).insert(q).contains(p) by {
            if 0 <= p.0 && 0 <= p.1 < 64 && p.0 * 64 + p.1 == u {
                lemma_tail_div(p.0, p.1);
            }
        }
        assert(positions_below(t as int) =~= positions_below(u as int).insert(q));
    }
}

proof fn lemma_lowest_free_result(dom: Set<(int, int)>, g: int, s: int, limit: int)
    ensures
        match lowest_free(dom, g, s, limit) {
            Some(x) => s <= x < limit && !dom.contains((g, x)),
            None => forall|x: int| s <= x < limit ==> dom.contains((g, x)),
        },
    decreases limit - s,
{
    if s < limit {
        lemma_lowest_free_result(dom, g, s + 1, limit);
    }
}

/// `lowest_free` finds the lowest free slot of the range: the slot it gives
/// is free, and every slot before it in the range is occupied; it gives
/// nothing only when every slot of the range is occupied.
pub proof fn law_lowest_free_is_lowest(dom: Set<(int, int)>, g: int, s: int, limit: int)
    ensures
        lowest_free(dom, g, s, limit) matches Some(x) ==> {
            &&& s <= x < limit
            &&& !dom.contains((g, x))
            &&& forall|y: int| s <= y < x ==> #[trigger] dom.contains((g, y))
        },
        lowest_free(dom, g, s, limit) is None ==> forall|y: int| s <= y < limit ==> #[trigger] dom.contains((g, y)),
    decreases limit - s,
{
    if s < limit {
        law_lowest_free_is_lowest(dom, g, s + 1, limit);
    }
}

/// When a listed group has a free slot below the tail, the insert position
/// is a free slot below the tail.
proof fn lemma_position_is_hole(dom: Set<(int, int)>, list: Seq<usize>, tail: int, g: int, s: int)
    requires
        0 <= tail,
        list.contains(g as usize),
        0 <= g <= usize::MAX,
        0 <= s < 64,
        g * 64 + s < tail,
        !dom.contains((g, s)),
        forall|k: int| 0 <= k < list.len() ==> (#[trigger] list[k] as int) * 64 < tail,
    ensures
        insert_position(dom, list, tail).0 * 64 + insert_position(dom, list, tail).1 < tail,
        !dom.contains(insert_position(dom, list, tail)),
    decreases list.len(),
{
    let e = list.last() as int;
    let tg = tail / 64;
    let ts = tail % 64;
    let limit = if e == tg { ts } else { 64 };
    lemma_tail_div(tg, ts);
    assert(e * 64 < tail);
    lemma_lowest_free_result(dom, e, 0, limit);
    match lowest_free(dom, e, 0, limit) {
        Some(x) => {
            lemma_position_lt(e, x, tg, ts);
            if e != tg {
                lemma_position_lt(e, 0, tg, ts);
            }
        },
        None => {
            let k = choose|k: int| 0 <= k < list.len() && list[k] == g as usize;
            if k == list.len() - 1 {
                assert(e == g);
                lemma_position_lt(g, s, tg, ts);
                assert(dom.contains((g, s)));
            }
            assert(list.drop_last()[k] == g as usize);
            lemma_position_is_hole(dom, list.drop_last(), tail, g, s);
        },
    }
}

/// Free slots below the tail are filled before the tail moves on: when some
/// slot below the tail is free, `insert` puts its value in a free slot below
/// the tail.
pub proof fn law_insert_fills_holes_first<T>(c: Colony<T>, g: int, s: int)
    requires
        c.wf(),
        0 <= g,
        0 <= s < 64,
        g * 64 + s < c.tail_index(),
        !c@.dom().contains((g, s)),
    ensures
        insert_position(c@.dom(), c.free_list(), c.tail_index() as int).0 * 64
            + insert_position(c@.dom(), c.free_list(), c.tail_index() as int).1 < c.tail_index(),
        !c@.dom().contains(insert_position(c@.dom(), c.free_list(), c.tail_index() as int)),
{
    c.lemma_hole_listed(g, s);
    assert(g <= usize::MAX) by {
        lemma_position_lt(g, s, c.tail_group as int, c.tail_slot as int);
    }
    lemma_position_is_hole(c@.dom(), c.free_list(), c.tail_index() as int, g, s);
}

/// A handle returned by `insert` finds the inserted value, and every handle
/// that found a value before still finds the same one.
pub proof fn law_get_after_insert<T>(old: Colony<T>, new: Colony<T>, value: T, h: Handle, other: Handle)
    requires
        Colony::inserted(old, new, value, h),
    ensures
        new.live(h),
        new@[h.loc()].1 == value,
        new@.len() == old@.len() + 1,
        old.live(other) ==> new.live(other) && new@[other.loc()] == old@[other.loc()]
            && other.loc() != h.loc(),
{
}

/// After `remove` of a live handle, the handle finds nothing; a later insert
/// never brings it back to life, even when it reuses the same slot, since the
/// slot's generation has moved on.
pub proof fn law_removed_handle_stays_dead<T>(c0: Colony<T>, c1: Colony<T>, c2: Colony<T>, h: Handle, value: T, h2: Handle)
    requires
        c0.live(h),
        c1@ == c0@.remove(h.loc()),
        forall|g: int, s: int| #[trigger] c1.generation_at(g, s) == if (g, s) == h.loc() {
            next_generation(h.gen())
        } else {
            c0.generation_at(g, s)
        },
        Colony::inserted(c1, c2, value, h2),
    ensures
        !c1.live(h),
        !c2.live(h),
        h2.loc() == h.loc() ==> h2.gen() != h.gen(),
{
    assert(c1.generation_at(h.loc().0, h.loc().1) == next_generation(h.gen()));
}

/// `remove` of one handle leaves every other live handle matching the same
/// value.
pub proof fn law_remove_keeps_other_handles<T>(old: Colony<T>, new: Colony<T>, h: Handle, g: Handle)
    requires
        new@ == (if old.live(h) { old@.remove(h.loc()) } else { old@ }),
        old.live(g),
        g != h,
    ensures
        new.live(g),
        new@[g.loc()] == old@[g.loc()],
{
    lemma_handle_eq(g, h);
}

/// After `clear`, no handle finds a value, and a handle that found one
/// before stays dead after later inserts reuse its slot.
pub proof fn law_clear_kills_handles<T>(c0: Colony<T>, c1: Colony<T>, c2: Colony<T>, h: Handle, value: T, h2: Handle)
    requires
        c0.live(h),
        c1@ == Map::<(int, int), (u32, T)>::empty(),
        forall|g: int, s: int| #[trigger] c1.generation_at(g, s) == if c0@.contains_key((g, s)) {
            next_generation(c0.generation_at(g, s))
        } else {
            c0.generation_at(g, s)
        },
        c0.wf(),
        Colony::inserted(c1, c2, value, h2),
    ensures
        !c1.live(h),
        !c2.live(h),
{
    assert(c1.generation_at(h.loc().0, h.loc().1) == next_generation(c0.generation_at(h.loc().0, h.loc().1)));
    c0.lemma_live_generation(h);
}

/// Occupied positions of group `k` from slot `i` on, and of every later group.
spec fn positions_from<T>(groups: Seq<Group<T>>, k: int, i: int) -> Set<(int, int)> {
    Set::new(
        |p: (int, int)|
            (p.0 == k && i <= p.1 < 64 && groups[k].slots@[p.1] is Some) || (k < p.0 < groups.len() && 0
                <= p.1 < 64 && groups[p.0].slots@[p.1] is Some),
    )
}

proof fn lemma_positions_count<T>(groups: Seq<Group<T>>, k: int, i: int)
    requires
        0 <= k < groups.len(),
        0 <= i <= 64,
        forall|g: int| 0 <= g < groups.len() ==> (#[trigger] groups[g]).wf(),
    ensures
        positions_from(groups, k, i).finite(),
        positions_from(groups, k, i).len() == masked(groups[k].slots@, groups[k].occupied, i).len()
            + values_from(groups, k + 1).len(),
    decreases groups.len() - k, 64 - i,
{
    let p = positions_from(groups, k, i);
    if i < 64 {
        lemma_positions_count(groups, k, i + 1);
        let q = positions_from(groups, k, i + 1);
        assert(groups[k].wf());
        if groups[k].slots@[i] is Some {
            assert(p =~= q.insert((k, i)));
        } else {
            assert(p =~= q);
        }
    } else if k + 1 < groups.len() {
        lemma_positions_count(groups, k + 1, 0);
        assert(p =~= positions_from(groups, k + 1, 0));
    } else {
        assert(p =~= Set::<(int, int)>::empty());
    }
}

impl<T> Colony<T> {
    /// The values in iteration order: by group, then by slot.
    pub closed spec fn values(&self) -> Seq<T> {
        values_from(self.groups@, 0)
    }

    /// Iteration yields as many values as the colony holds.
    pub proof fn lemma_values_len(&self)
        requires
            self.wf(),
        ensures
            self.values().len() == self@.len(),
    {
        if self.groups@.len() == 0 {
            self.lemma_view_empty();
        } else {
            lemma_positions_count(self.groups@, 0, 0);
            assert(self@.dom() =~= positions_from(self.groups@, 0, 0));
        }
    }

    /// The groups of slots, in order.
    pub closed spec fn groups_view(&self) -> Seq<Group<T>> {
        self.groups@
    }

    /// This colony with its groups replaced by `groups`.
    pub closed spec fn with_groups(&self, groups: Vec<Group<T>>) -> Colony<T> {
        Colony { groups, ..*self }
    }

    /// Handing back groups of the same layout with other values gives a
    /// well-formed colony with the same handles, generations, free list and
    /// tail, whose values are read from the new groups.
    pub proof fn lemma_with_groups(&self, groups: Vec<Group<T>>)
        requires
            self.wf(),
            same_layout(self.groups_view(), groups@),
        ensures
            self.with_groups(groups).wf(),
            self.with_groups(groups)@.dom() == self@.dom(),
            forall|p: (int, int)| #[trigger] self@.dom().contains(p) ==> self.with_groups(groups)@[p]
                == (self@[p].0, groups@[p.0].slots@[p.1]->0),
            forall|g: int, s: int| #[trigger] self.with_groups(groups).generation_at(g, s) == self.generation_at(g, s),
            self.with_groups(groups).free_list() == self.free_list(),
            self.with_groups(groups).tail_index() == self.tail_index(),
            self.with_groups(groups).slot_count() == self.slot_count(),
            self.with_groups(groups).values() == values_from(groups@, 0),
            self.with_groups(groups).positions() == self.positions(),
    {
        let c = self.with_groups(groups);
        assert(c.groups@ == groups@);
        assert forall|g: int| 0 <= g < c.groups@.len() implies (#[trigger] c.groups@[g]).wf() by {
            assert(self.groups@[g].wf());
            assert(groups@[g].occupied == self.groups@[g].occupied);
            assert forall|i: int| 0 <= i < 64 implies (#[trigger] c.groups@[g].slots@[i] is Some <==> crate::bits::bit(c.groups@[g].occupied, i as u64)) by {
                assert(self.groups@[g].slots@[i] is Some <==> crate::bits::bit(self.groups@[g].occupied, i as u64));
            }
        }
        assert forall|p: (int, int)| #[trigger] c@.dom().contains(p) == self@.dom().contains(p) by {
            if 0 <= p.0 < c.groups@.len() && 0 <= p.1 < 64 {
                assert(groups@[p.0].occupied == self.groups@[p.0].occupied);
            }
        }
        assert(c@.dom() =~= self@.dom());
        assert forall|g: int| 0 <= g < c.groups@.len() && #[trigger] c.groups@[g].in_free_list
            implies c.non_full_groups@.contains(g as usize) && c.has_hole(g) by {
            assert(groups@[g].occupied == self.groups@[g].occupied);
            assert(self.groups@[g].in_free_list);
            assert(self.has_hole(g));
            let w = choose|w: int| 0 <= w < 64 && g * 64 + w < self.tail_index() && #[trigger] self.groups@[g].slots@[w] is None;
            assert(c.groups@[g].slots@[w] is None);
        }
        assert forall|g: int, s: int| #[trigger] c.generation_at(g, s) == self.generation_at(g, s) by {
            if 0 <= g < c.groups@.len() {
                assert(groups@[g].occupied == self.groups@[g].occupied);
            }
        }
        lemma_positions_same_masks(c.groups@, self.groups@, 0);
    }

    /// The occupied positions in iteration order.
    pub closed spec fn positions(&self) -> Seq<(int, int)> {
        positions_in_order(self.groups@, 0)
    }

    /// Iteration lists the value of every occupied position once, in
    /// increasing (group, slot) order.
    pub proof fn lemma_values_in_order(&self)
        requires
            self.wf(),
        ensures
            self.positions().len() == self.values().len(),
            self.values().len() == self@.len(),
            forall|k: int| 0 <= k < self.positions().len() ==> {
                &&& self@.dom().contains(#[trigger] self.positions()[k])
                &&& self.values()[k] == self@[self.positions()[k]].1
            },
            forall|k: int, l: int| 0 <= k < l < self.positions().len()
                ==> before(#[trigger] self.positions()[k], #[trigger] self.positions()[l]),
            forall|p: (int, int)| #[trigger] self@.dom().contains(p) ==> self.positions().contains(p),
    {
        self.lemma_values_len();
        lemma_positions_in_order(self.groups@, 0);
        assert forall|p: (int, int)| #[trigger] self@.dom().contains(p) implies self.positions().contains(p) by {
            assert(self.groups@[p.0].slots@[p.1] is Some);
        }
    }

    pub fn iter(&self) -> (it: Iter<'_, T>)
        requires
            self.wf(),
        ensures
            it.wf(),
            it.rest() == self.values(),
    {
        proof {
            self.lemma_values_len();
        }
        Iter::new(&self.groups, self.len)
    }

    /// Lends the values mutably, in the order of `values`.
    pub fn iter_mut(&mut self) -> (it: IterMut<'_, T>)
        requires
            old(self).wf(),
        ensures
            it.wf(),
            it.rest() == old(self).values(),
            it.current() == old(self).groups_view(),
            it.rest_positions() == old(self).positions(),
            *final(self) == old(self).with_groups(*final(it.groups)),
    {
        proof {
            self.lemma_values_len();
        }
        let n = self.len;
        IterMut::new(&mut self.groups, n)
    }
}

impl<T> Default for Colony<T> {
    fn default() -> (c: Self)
        ensures
            c.wf(),
            c@ == Map::<(int, int), (u32, T)>::empty(),
            c.slot_count() == 0,
            c.tail_index() == 0,
            c.free_list() == Seq::<usize>::empty(),
    {
        Self::new()
    }
}

} // verus!
