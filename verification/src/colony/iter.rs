//! Iteration over the values of a colony in slot order.

use vstd::prelude::*;
use crate::bits::{bit, single, lowest_bit, lemma_bit_xor_single, lemma_bit_zero};
use super::group::Group;

verus! {

/// The values of the slots whose bit is set in `mask`, from slot `i` on.
pub open spec fn masked<T>(slots: Seq<Option<T>>, mask: u64, i: int) -> Seq<T>
    decreases 64 - i,
{
    if i >= 64 || i < 0 {
        Seq::empty()
    } else {
        let rest = masked(slots, mask, i + 1);
        if bit(mask, i as u64) { seq![slots[i]->0] + rest } else { rest }
    }
}

/// The values of the groups from `gi` on, group by group in slot order.
pub open spec fn values_from<T>(groups: Seq<Group<T>>, gi: int) -> Seq<T>
    decreases groups.len() - gi,
{
    if gi >= groups.len() || gi < 0 {
        Seq::empty()
    } else {
        masked(groups[gi].slots@, groups[gi].occupied, 0) + values_from(groups, gi + 1)
    }
}

/// The positions `(g, j)`, `j >= i`, of the slots whose bit is set in `mask`.
pub open spec fn masked_positions(mask: u64, g: int, i: int) -> Seq<(int, int)>
    decreases 64 - i,
{
    if i >= 64 || i < 0 {
        Seq::empty()
    } else {
        let rest = masked_positions(mask, g, i + 1);
        if bit(mask, i as u64) { seq![(g, i)] + rest } else { rest }
    }
}

/// The occupied positions of the groups from `gi` on, in the order in which
/// `values_from` lists their values.
pub open spec fn positions_in_order<T>(groups: Seq<Group<T>>, gi: int) -> Seq<(int, int)>
    decreases groups.len() - gi,
{
    if gi >= groups.len() || gi < 0 {
        Seq::empty()
    } else {
        masked_positions(groups[gi].occupied, gi, 0) + positions_in_order(groups, gi + 1)
    }
}

/// Position `a` comes before position `b`: by group, then by slot.
pub open spec fn before(a: (int, int), b: (int, int)) -> bool {
    a.0 < b.0 || (a.0 == b.0 && a.1 < b.1)
}

/// Within one group, the masked values are the values of the masked
/// positions, in increasing slot order, and every occupied slot is listed.
proof fn lemma_masked_positions<T>(slots: Seq<Option<T>>, mask: u64, g: int, i: int)
    requires
        0 <= i <= 64,
        forall|j: int| 0 <= j < 64 ==> (#[trigger] slots[j] is Some <==> bit(mask, j as u64)),
    ensures
        masked_positions(mask, g, i).len() == masked(slots, mask, i).len(),
        forall|k: int| 0 <= k < masked_positions(mask, g, i).len() ==> {
            let p = #[trigger] masked_positions(mask, g, i)[k];
            &&& p.0 == g
            &&& i <= p.1 < 64
            &&& slots[p.1] is Some
            &&& masked(slots, mask, i)[k] == slots[p.1]->0
        },
        forall|k: int, l: int| 0 <= k < l < masked_positions(mask, g, i).len()
            ==> #[trigger] masked_positions(mask, g, i)[k].1 < #[trigger] masked_positions(mask, g, i)[l].1,
        forall|j: int| i <= j < 64 && #[trigger] slots[j] is Some ==> masked_positions(mask, g, i).contains((g, j)),
    decreases 64 - i,
{
    if i < 64 {
        lemma_masked_positions(slots, mask, g, i + 1);
        let rp = masked_positions(mask, g, i + 1);
        let ps = masked_positions(mask, g, i);
        if bit(mask, i as u64) {
            assert(slots[i] is Some);
            assert(ps == seq![(g, i)] + rp);
            assert forall|j: int| i <= j < 64 && #[trigger] slots[j] is Some implies ps.contains((g, j)) by {
                if j == i {
                    assert(ps[0] == (g, i));
                } else {
                    let k = choose|k: int| 0 <= k < rp.len() && rp[k] == (g, j);
                    assert(ps[k + 1] == (g, j));
                }
            }
        } else {
            assert(slots[i] is None);
            assert forall|j: int| i <= j < 64 && #[trigger] slots[j] is Some implies ps.contains((g, j)) by {
                assert(j != i);
            }
        }
    }
}

/// Across groups, `values_from` lists the values of `positions_in_order`,
/// which are the occupied positions in increasing order, each once.
pub proof fn lemma_positions_in_order<T>(groups: Seq<Group<T>>, gi: int)
    requires
        0 <= gi,
        forall|g: int| 0 <= g < groups.len() ==> (#[trigger] groups[g]).wf(),
    ensures
        positions_in_order(groups, gi).len() == values_from(groups, gi).len(),
        forall|k: int| 0 <= k < positions_in_order(groups, gi).len() ==> {
            let p = #[trigger] positions_in_order(groups, gi)[k];
            &&& gi <= p.0 < groups.len()
            &&& 0 <= p.1 < 64
            &&& groups[p.0].slots@[p.1] is Some
            &&& values_from(groups, gi)[k] == groups[p.0].slots@[p.1]->0
        },
        forall|k: int, l: int| 0 <= k < l < positions_in_order(groups, gi).len()
            ==> before(#[trigger] positions_in_order(groups, gi)[k], #[trigger] positions_in_order(groups, gi)[l]),
        forall|g: int, j: int| gi <= g < groups.len() && 0 <= j < 64 && #[trigger] groups[g].slots@[j] is Some
            ==> positions_in_order(groups, gi).contains((g, j)),
    decreases groups.len() - gi,
{
    if gi < groups.len() {
        lemma_positions_in_order(groups, gi + 1);
        assert(groups[gi].wf());
        lemma_masked_positions(groups[gi].slots@, groups[gi].occupied, gi, 0);
        let a = masked_positions(groups[gi].occupied, gi, 0);
        let b = positions_in_order(groups, gi + 1);
        let va = masked(groups[gi].slots@, groups[gi].occupied, 0);
        let vb = values_from(groups, gi + 1);
        let ps = positions_in_order(groups, gi);
        assert(ps == a + b);
        assert(values_from(groups, gi) == va + vb);
        assert forall|k: int| 0 <= k < ps.len() implies {
            let p = #[trigger] ps[k];
            &&& gi <= p.0 < groups.len()
            &&& 0 <= p.1 < 64
            &&& groups[p.0].slots@[p.1] is Some
            &&& values_from(groups, gi)[k] == groups[p.0].slots@[p.1]->0
        } by {
            if k < a.len() {
                assert(a[k] == ps[k]);
            } else {
                assert(b[k - a.len()] == ps[k]);
            }
        }
        assert forall|k: int, l: int| 0 <= k < l < ps.len() implies before(#[trigger] ps[k], #[trigger] ps[l]) by {
            if l < a.len() {
                assert(a[k].1 < a[l].1);
            } else if k < a.len() {
                assert(a[k] == ps[k]);
                assert(b[l - a.len()] == ps[l]);
            } else {
                assert(b[k - a.len()] == ps[k]);
                assert(b[l - a.len()] == ps[l]);
            }
        }
        assert forall|g: int, j: int| gi <= g < groups.len() && 0 <= j < 64 && #[trigger] groups[g].slots@[j] is Some
            implies ps.contains((g, j)) by {
            if g == gi {
                let k = choose|k: int| 0 <= k < a.len() && a[k] == (g, j);
                assert(ps[k] == (g, j));
            } else {
                let k = choose|k: int| 0 <= k < b.len() && b[k] == (g, j);
                assert(ps[k + a.len()] == (g, j));
            }
        }
    }
}

/// Bits of `mask` below `i` do not change the values from `i` on.
pub proof fn lemma_masked_below<T>(slots: Seq<Option<T>>, mask: u64, i: int)
    requires
        0 <= i <= 64,
        forall|j: u64| j < i ==> !#[trigger] bit(mask, j),
    ensures
        masked(slots, mask, 0) == masked(slots, mask, i),
    decreases i,
{
    if i > 0 {
        lemma_masked_below(slots, mask, i - 1);
        assert(!bit(mask, (i - 1) as u64));
    }
}

/// Clearing bit `t` of `mask` leaves the values above `t` unchanged.
pub proof fn lemma_masked_clear<T>(slots: Seq<Option<T>>, mask: u64, t: u64, i: int)
    requires
        t < 64,
        t < i <= 64,
    ensures
        masked(slots, mask ^ single(t), i) == masked(slots, mask, i),
    decreases 64 - i,
{
    if i < 64 {
        lemma_masked_clear(slots, mask, t, i + 1);
        lemma_bit_xor_single(mask, t, i as u64);
    }
}

/// Values from slot `i` on depend only on the slots from `i` on.
pub proof fn lemma_masked_same_from<T>(s1: Seq<Option<T>>, s2: Seq<Option<T>>, mask: u64, i: int)
    requires
        0 <= i <= 64,
        forall|j: int| i <= j < 64 ==> #[trigger] s1[j] == s2[j],
    ensures
        masked(s1, mask, i) == masked(s2, mask, i),
    decreases 64 - i,
{
    if i < 64 {
        lemma_masked_same_from(s1, s2, mask, i + 1);
    }
}

/// Replacing group `g` does not change the values of the groups after it.
pub proof fn lemma_values_from_update<T>(groups: Seq<Group<T>>, g: int, ng: Group<T>, k: int)
    requires
        0 <= g < k,
        g < groups.len(),
    ensures
        values_from(groups.update(g, ng), k) == values_from(groups, k),
    decreases groups.len() - k,
{
    if k < groups.len() {
        lemma_values_from_update(groups, g, ng, k + 1);
        assert(groups.update(g, ng)[k] == groups[k]);
    }
}

/// Writing a new value into slot `t` of group `g` keeps the group well formed
/// and changes none of the values after slot `t`.
proof fn lemma_write_keeps_rest<T>(groups: Seq<Group<T>>, g: int, t: u64, mask: u64, ng: Group<T>, x: T)
    requires
        0 <= g < groups.len(),
        t < 64,
        groups[g].wf(),
        groups[g].slots@[t as int] is Some,
        ng.slots@ == groups[g].slots@.update(t as int, Some(x)),
        ng.generations@ == groups[g].generations@,
        ng.occupied == groups[g].occupied,
        forall|j: u64| j < t + 1 ==> !#[trigger] bit(mask, j),
    ensures
        ng.wf(),
        masked(ng.slots@, mask, 0) == masked(groups[g].slots@, mask, 0),
        values_from(groups.update(g, ng), g + 1) == values_from(groups, g + 1),
{
    assert forall|i: int| 0 <= i < 64 implies (#[trigger] ng.slots@[i] is Some <==> bit(ng.occupied, i as u64)) by {
        assert(groups[g].slots@[i] is Some <==> bit(groups[g].occupied, i as u64));
    }
    lemma_masked_below(ng.slots@, mask, t + 1);
    lemma_masked_below(groups[g].slots@, mask, t + 1);
    lemma_masked_same_from(ng.slots@, groups[g].slots@, mask, t + 1);
    lemma_values_from_update(groups, g, ng, g + 1);
}

/// Bits of `mask` below `i` do not change the positions from `i` on.
proof fn lemma_positions_below(mask: u64, g: int, i: int)
    requires
        0 <= i <= 64,
        forall|j: u64| j < i ==> !#[trigger] bit(mask, j),
    ensures
        masked_positions(mask, g, 0) == masked_positions(mask, g, i),
    decreases i,
{
    if i > 0 {
        lemma_positions_below(mask, g, i - 1);
        assert(!bit(mask, (i - 1) as u64));
    }
}

/// Clearing bit `t` of `mask` leaves the positions above `t` unchanged.
proof fn lemma_positions_clear(mask: u64, g: int, t: u64, i: int)
    requires
        t < 64,
        t < i <= 64,
    ensures
        masked_positions(mask ^ single(t), g, i) == masked_positions(mask, g, i),
    decreases 64 - i,
{
    if i < 64 {
        lemma_positions_clear(mask, g, t, i + 1);
        lemma_bit_xor_single(mask, t, i as u64);
    }
}

/// The order of positions depends only on the occupancy masks.
pub proof fn lemma_positions_same_masks<T>(a: Seq<Group<T>>, b: Seq<Group<T>>, gi: int)
    requires
        a.len() == b.len(),
        forall|g: int| 0 <= g < a.len() ==> #[trigger] a[g].occupied == b[g].occupied,
    ensures
        positions_in_order(a, gi) == positions_in_order(b, gi),
    decreases a.len() - gi,
{
    if 0 <= gi < a.len() {
        lemma_positions_same_masks(a, b, gi + 1);
        assert(a[gi].occupied == b[gi].occupied);
    }
}

/// `b` is `a` with the value at position `p` replaced by `v`.
pub open spec fn written<T>(a: Seq<Group<T>>, b: Seq<Group<T>>, p: (int, int), v: T) -> bool {
    &&& b.len() == a.len()
    &&& 0 <= p.0 < a.len()
    &&& 0 <= p.1 < 64
    &&& a[p.0].slots@[p.1] is Some
    &&& forall|g: int| 0 <= g < a.len() && g != p.0 ==> #[trigger] b[g] == a[g]
    &&& b[p.0].occupied == a[p.0].occupied
    &&& b[p.0].in_free_list == a[p.0].in_free_list
    &&& b[p.0].generations@ == a[p.0].generations@
    &&& b[p.0].slots@ == a[p.0].slots@.update(p.1, Some(v))
}

/// `a` and `b` have the same groups with the same slots occupied, the same
/// generations and the same listing; only the values may differ.
pub open spec fn same_layout<T>(a: Seq<Group<T>>, b: Seq<Group<T>>) -> bool {
    &&& b.len() == a.len()
    &&& forall|g: int| 0 <= g < a.len() ==> {
        &&& #[trigger] b[g].occupied == a[g].occupied
        &&& b[g].in_free_list == a[g].in_free_list
        &&& b[g].generations@ == a[g].generations@
        &&& b[g].slots@.len() == a[g].slots@.len()
        &&& forall|s: int| 0 <= s < 64 ==> (#[trigger] b[g].slots@[s] is Some) == (a[g].slots@[s] is Some)
    }
}

/// Writing one value keeps the layout of well-formed groups.
pub proof fn lemma_written_layout<T>(a: Seq<Group<T>>, b: Seq<Group<T>>, p: (int, int), v: T)
    requires
        written(a, b, p, v),
        forall|g: int| 0 <= g < a.len() ==> (#[trigger] a[g]).wf(),
    ensures
        same_layout(a, b),
        forall|g: int| 0 <= g < b.len() ==> (#[trigger] b[g]).wf(),
{
    assert(a[p.0].wf());
    assert forall|g: int| 0 <= g < b.len() implies (#[trigger] b[g]).wf() by {
        assert(a[g].wf());
        if g == p.0 {
            assert forall|i: int| 0 <= i < 64 implies (#[trigger] b[g].slots@[i] is Some <==> bit(b[g].occupied, i as u64)) by {
                assert(a[g].slots@[i] is Some <==> bit(a[g].occupied, i as u64));
            }
        }
    }
}

/// An iterator over the values of a colony, in group and slot order.
pub struct Iter<'a, T> {
    groups: &'a Vec<Group<T>>,
    group: usize,
    mask: u64,
    remaining: usize,
}

impl<'a, T> Iter<'a, T> {
    /// The values this iterator has yet to yield.
    pub closed spec fn rest(&self) -> Seq<T> {
        if self.group < self.groups@.len() {
            masked(self.groups@[self.group as int].slots@, self.mask, 0) + values_from(self.groups@, self.group + 1)
        } else {
            Seq::empty()
        }
    }

    pub closed spec fn wf(&self) -> bool {
        &&& forall|g: int| 0 <= g < self.groups@.len() ==> (#[trigger] self.groups@[g]).wf()
        &&& self.group <= self.groups@.len()
        &&& self.group == self.groups@.len() ==> self.mask == 0
        &&& self.group < self.groups@.len() ==> forall|i: u64| i < 64 && #[trigger] bit(self.mask, i)
            ==> bit(self.groups@[self.group as int].occupied, i)
        &&& self.remaining == self.rest().len()
    }

    pub(crate) fn new(groups: &'a Vec<Group<T>>, remaining: usize) -> (it: Self)
        requires
            forall|g: int| 0 <= g < groups@.len() ==> (#[trigger] groups@[g]).wf(),
            remaining == values_from(groups@, 0).len(),
        ensures
            it.wf(),
            it.rest() == values_from(groups@, 0),
    {
        let mask = if groups.len() == 0 { 0 } else { groups[0].occupied };
        Iter { groups, group: 0, mask, remaining }
    }

    /// The number of values left.
    pub fn len(&self) -> (r: usize)
        requires
            self.wf(),
        ensures
            r == self.rest().len(),
    {
        self.remaining
    }

    /// Yields the next value, or `None` once every value has been yielded.
    pub fn next(&mut self) -> (r: Option<&'a T>)
        requires
            old(self).wf(),
        ensures
            final(self).wf(),
            old(self).rest().len() == 0 ==> r is None && final(self).rest().len() == 0,
            old(self).rest().len() > 0 ==> r == Some(&old(self).rest()[0]) && final(self).rest()
                == old(self).rest().drop_first(),
    {
        let groups: &'a Vec<Group<T>> = self.groups;
        let n = groups.len();
        if self.group == n {
            return None;
        }
        loop
            invariant
                n == groups@.len(),
                self.wf(),
                self.groups == groups,
                self.group < groups@.len(),
                self.rest() == old(self).rest(),
            decreases groups@.len() - self.group,
        {
            let g = self.group;
            if self.mask != 0 {
                let m = self.mask;
                let ghost t = lowest_bit(m);
                let slot = m.trailing_zeros() as usize;
                self.mask = m & (m - 1);
                proof {
                    let slots = groups@[g as int].slots@;
                    assert(groups@[g as int].wf());
                    lemma_masked_below(slots, m, t as int);
                    lemma_masked_clear(slots, m, t, t + 1);
                    assert forall|j: u64| j < t + 1 implies !#[trigger] bit(self.mask, j) by {
                        lemma_bit_xor_single(m, t, j);
                    }
                    lemma_masked_below(slots, self.mask, t + 1);
                    assert forall|i: u64| i < 64 && #[trigger] bit(self.mask, i) implies bit(groups@[g as int].occupied, i) by {
                        lemma_bit_xor_single(m, t, i);
                    }
                    assert(bit(groups@[g as int].occupied, t));
                    assert(slots[t as int] is Some);
                    assert(old(self).rest() =~= seq![slots[t as int]->0] + self.rest());
                }
                self.remaining -= 1;
                return groups[g].slots[slot].as_ref();
            }
            proof {
                assert forall|j: u64| j < 64 implies !#[trigger] bit(self.mask, j) by {
                    lemma_bit_zero(j);
                }
                lemma_masked_below(groups@[g as int].slots@, self.mask, 64);
                assert(masked(groups@[g as int].slots@, self.mask, 0) =~= Seq::<T>::empty());
            }
            self.group = g + 1;
            if self.group == n {
                return None;
            }
            self.mask = groups[self.group].occupied;
            proof {
                assert(self.rest() =~= old(self).rest());
            }
        }
    }
}

/// An iterator over the values of a colony that lends each value mutably,
/// in group and slot order.
pub struct IterMut<'a, T> {
    /// The groups being walked; the colony takes them back when the
    /// iterator is done.
    pub groups: &'a mut Vec<Group<T>>,
    /// Where the walk stands.
    pub cursor: Cursor,
}

/// The position of a walk over the groups: the current group, the slots of
/// it still to visit, and the number of values left.
pub struct Cursor {
    group: usize,
    mask: u64,
    remaining: usize,
}

impl<'a, T> IterMut<'a, T> {
    /// The values this iterator has yet to lend.
    pub closed spec fn rest(&self) -> Seq<T> {
        if self.cursor.group < self.groups@.len() {
            masked(self.groups@[self.cursor.group as int].slots@, self.cursor.mask, 0) + values_from(self.groups@, self.cursor.group + 1)
        } else {
            Seq::empty()
        }
    }

    /// The group contents as they stand now.
    pub open spec fn current(&self) -> Seq<Group<T>> {
        self.groups@
    }

    /// The positions of the values this iterator has yet to lend.
    pub closed spec fn rest_positions(&self) -> Seq<(int, int)> {
        if self.cursor.group < self.groups@.len() {
            masked_positions(self.cursor.mask, self.cursor.group as int, 0)
                + positions_in_order(self.groups@, self.cursor.group + 1)
        } else {
            Seq::empty()
        }
    }

    pub closed spec fn wf(&self) -> bool {
        &&& forall|g: int| 0 <= g < self.groups@.len() ==> (#[trigger] self.groups@[g]).wf()
        &&& self.cursor.group <= self.groups@.len()
        &&& self.cursor.group == self.groups@.len() ==> self.cursor.mask == 0
        &&& self.cursor.group < self.groups@.len() ==> forall|i: u64| i < 64 && #[trigger] bit(self.cursor.mask, i)
            ==> bit(self.groups@[self.cursor.group as int].occupied, i)
        &&& self.cursor.remaining == self.rest().len()
    }

    pub(crate) fn new(groups: &'a mut Vec<Group<T>>, remaining: usize) -> (it: Self)
        requires
            forall|g: int| 0 <= g < old(groups)@.len() ==> (#[trigger] old(groups)@[g]).wf(),
            remaining == values_from(old(groups)@, 0).len(),
        ensures
            it.wf(),
            it.current() == old(groups)@,
            it.rest() == values_from(old(groups)@, 0),
            it.rest_positions() == positions_in_order(old(groups)@, 0),
            *final(it.groups) == *final(groups),
    {
        let mask = if groups.len() == 0 { 0 } else { groups[0].occupied };
        IterMut { groups, cursor: Cursor { group: 0, mask, remaining } }
    }

    /// The number of values left.
    pub fn len(&self) -> (r: usize)
        requires
            self.wf(),
        ensures
            r == self.rest().len(),
    {
        self.cursor.remaining
    }

    /// Lends the next value, or returns `None` once every value has been lent.
    /// Whatever is written through the returned reference is stored in its slot.
    pub fn next(&mut self) -> (r: Option<&mut T>)
        requires
            old(self).wf(),
        ensures
            old(self).rest().len() == 0 ==> r is None && final(self).rest().len() == 0,
            old(self).rest().len() > 0 ==> r is Some && *r->0 == old(self).rest()[0],
            r is Some ==> final(self).wf() && final(self).rest() == old(self).rest().drop_first(),
            *final(final(self).groups) == *final(old(self).groups),
            r is None ==> final(self).current() == old(self).current(),
            r is Some ==> {
                &&& old(self).rest_positions().len() > 0
                &&& final(self).rest_positions() == old(self).rest_positions().drop_first()
                &&& written(old(self).current(), final(self).current(), old(self).rest_positions()[0], *final(r->0))
            },
    {
        let n = self.groups.len();
        if self.cursor.group == n {
            return None;
        }
        loop
            invariant
                n == self.groups@.len(),
                self.wf(),
                self.groups@ == old(self).groups@,
                self.cursor.group < n,
                self.rest() == old(self).rest(),
                self.rest_positions() == old(self).rest_positions(),
                *final(self.groups) == *final(old(self).groups),
            decreases n - self.cursor.group,
        {
            let g = self.cursor.group;
            if self.cursor.mask != 0 {
                let m = self.cursor.mask;
                let ghost t = lowest_bit(m);
                let slot = m.trailing_zeros() as usize;
                self.cursor.mask = m & (m - 1);
                proof {
                    let slots = self.groups@[g as int].slots@;
                    assert(self.groups@[g as int].wf());
                    lemma_masked_below(slots, m, t as int);
                    lemma_masked_clear(slots, m, t, t + 1);
                    assert forall|j: u64| j < t + 1 implies !#[trigger] bit(self.cursor.mask, j) by {
                        lemma_bit_xor_single(m, t, j);
                    }
                    lemma_masked_below(slots, self.cursor.mask, t + 1);
                    assert forall|i: u64| i < 64 && #[trigger] bit(self.cursor.mask, i) implies bit(self.groups@[g as int].occupied, i) by {
                        lemma_bit_xor_single(m, t, i);
                    }
                    assert(bit(self.groups@[g as int].occupied, t));
                    assert(slots[t as int] is Some);
                    assert(old(self).rest() =~= seq![slots[t as int]->0] + self.rest());
                    lemma_positions_below(m, g as int, t as int);
                    lemma_positions_clear(m, g as int, t, t + 1);
                    lemma_positions_below(self.cursor.mask, g as int, t + 1);
                    assert(old(self).rest_positions() =~= seq![(g as int, t as int)] + self.rest_positions());
                }
                self.cursor.remaining -= 1;
                let ghost pre = *self;
                let r = self.groups[g].slots[slot].as_mut();
                proof {
                    let fin = after_borrow(*self);
                    let ng = fin.groups@[g as int];
                    assert(fin.groups@ == pre.groups@.update(g as int, ng));
                    assert(ng.slots@ == pre.groups@[g as int].slots@.update(slot as int, Some(*final(r->0))));
                    assert(ng.occupied == pre.groups@[g as int].occupied);
                    lemma_write_keeps_rest(pre.groups@, g as int, t, pre.cursor.mask, ng, *final(r->0));
                    assert(fin.rest() == pre.rest());
                    assert(ng.generations@ == pre.groups@[g as int].generations@);
                    assert(ng.in_free_list == pre.groups@[g as int].in_free_list);
                    lemma_positions_same_masks(fin.groups@, pre.groups@, g + 1);
                    assert(fin.rest_positions() == pre.rest_positions());
                    assert(slot == t);
                    assert(pre.groups@[g as int].slots@[slot as int] is Some);
                }
                return r;
            }
            proof {
                assert forall|j: u64| j < 64 implies !#[trigger] bit(self.cursor.mask, j) by {
                    lemma_bit_zero(j);
                }
                lemma_masked_below(self.groups@[g as int].slots@, self.cursor.mask, 64);
                assert(masked(self.groups@[g as int].slots@, self.cursor.mask, 0) =~= Seq::<T>::empty());
                lemma_positions_below(self.cursor.mask, g as int, 64);
                assert(masked_positions(self.cursor.mask, g as int, 0) =~= Seq::<(int, int)>::empty());
            }
            self.cursor.group = g + 1;
            if self.cursor.group == n {
                return None;
            }
            self.cursor.mask = self.groups[self.cursor.group].occupied;
            proof {
                assert(self.rest() =~= old(self).rest());
                assert(self.rest_positions() =~= old(self).rest_positions());
            }
        }
    }
}

} // verus!
