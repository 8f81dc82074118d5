//! Reference-counted nodes that each point to an optional next node.
//!
//! A handle owns a count of its node and, while the node points somewhere,
//! a count of the next node too: cloning a handle adds one to both, and
//! dropping a handle takes one from both. The pointer held in a node owns one
//! count of its target. A node whose count reaches zero is freed, which drops
//! its own pointer in turn. Nodes live in an arena; handles name them by
//! index.

use std::marker::PhantomData;
use vstd::prelude::*;

verus! {

/// Dropping a reference keeps the number of counts.
pub proof fn lemma_dropped_len(counts: Seq<usize>, nexts: Seq<Option<usize>>, id: int, fuel: nat)
    ensures
        dropped(counts, nexts, id, fuel).len() == counts.len(),
    decreases fuel,
{
    if !(fuel == 0 || !(0 <= id < counts.len()) || counts[id] == 0) {
        let c = counts.update(id, (counts[id] - 1) as usize);
        if c[id] == 0 && nexts[id] is Some {
            lemma_dropped_len(c, nexts, nexts[id]->0 as int, (fuel - 1) as nat);
        }
    }
}

/// Counts after one reference to `id` is dropped, following the chain of
/// nodes freed by it; `fuel` bounds the chain.
pub open spec fn dropped(counts: Seq<usize>, nexts: Seq<Option<usize>>, id: int, fuel: nat) -> Seq<usize>
    decreases fuel,
{
    if fuel == 0 || !(0 <= id < counts.len()) || counts[id] == 0 {
        counts
    } else {
        let c = counts.update(id, (counts[id] - 1) as usize);
        if c[id] == 0 && nexts[id] is Some {
            dropped(c, nexts, nexts[id]->0 as int, (fuel - 1) as nat)
        } else {
            c
        }
    }
}

/// The node arena.
pub struct Nodes<T> {
    values: Vec<T>,
    nexts: Vec<Option<usize>>,
    counts: Vec<usize>,
}

/// A handle to a node.
pub struct Node<T> {
    id: usize,
    marker: PhantomData<T>,
}

impl<T> Node<T> {
    pub closed spec fn index(&self) -> int {
        self.id as int
    }
}

impl<T> Nodes<T> {
    pub closed spec fn counts(&self) -> Seq<usize> {
        self.counts@
    }

    pub closed spec fn nexts(&self) -> Seq<Option<usize>> {
        self.nexts@
    }

    pub closed spec fn values(&self) -> Seq<T> {
        self.values@
    }

    pub closed spec fn wf(&self) -> bool {
        &&& self.values@.len() == self.nexts@.len()
        &&& self.values@.len() == self.counts@.len()
        &&& forall|i: int| 0 <= i < self.nexts@.len() && #[trigger] self.nexts@[i] is Some
            ==> self.nexts@[i]->0 < self.nexts@.len()
    }

    /// The handle names a node of this arena.
    pub open spec fn has(&self, n: &Node<T>) -> bool {
        0 <= n.index() < self.counts().len()
    }

    /// In a well-formed arena every node has a value, a pointer and a
    /// count, and every pointer names a node of the arena.
    pub proof fn lemma_lengths(&self)
        requires
            self.wf(),
        ensures
            self.values().len() == self.counts().len(),
            self.nexts().len() == self.counts().len(),
            forall|i: int| 0 <= i < self.nexts().len() && #[trigger] self.nexts()[i] is Some
                ==> self.nexts()[i]->0 < self.counts().len(),
    {
    }

    pub fn new() -> (a: Self)
        ensures
            a.wf(),
            a.counts() == Seq::<usize>::empty(),
            a.nexts() == Seq::<Option<usize>>::empty(),
            a.values() == Seq::<T>::empty(),
    {
        Nodes { values: Vec::new(), nexts: Vec::new(), counts: Vec::new() }
    }

    /// Drops one reference to `id`, freeing nodes down the chain as counts
    /// reach zero.
    fn drop_ref(&mut self, id: usize)
        requires
            old(self).wf(),
            id < old(self).counts().len(),
        ensures
            final(self).wf(),
            final(self).values() == old(self).values(),
            final(self).nexts() == old(self).nexts(),
            final(self).counts() == dropped(old(self).counts(), old(self).nexts(), id as int, old(self).counts().len()),
    {
        let mut cur = id;
        let mut fuel = self.counts.len();
        while fuel > 0 && self.counts[cur] > 0
            invariant_except_break
                dropped(self.counts@, self.nexts@, cur as int, fuel as nat) == dropped(
                    old(self).counts@,
                    old(self).nexts@,
                    id as int,
                    old(self).counts@.len(),
                ),
            invariant
                self.wf(),
                self.values@ == old(self).values@,
                self.nexts@ == old(self).nexts@,
                cur < self.counts@.len(),
                fuel <= self.counts@.len(),
            ensures
                self.counts@ == dropped(old(self).counts@, old(self).nexts@, id as int, old(self).counts@.len()),
            decreases fuel,
        {
            let c = self.counts[cur] - 1;
            self.counts.set(cur, c);
            fuel -= 1;
            if c != 0 {
                break;
            }
            match self.nexts[cur] {
                None => {
                    break;
                },
                Some(m) => {
                    cur = m;
                },
            }
        }
    }
}

impl<T> Node<T> {
    /// A new node holding `value`, pointing nowhere, with one reference.
    pub fn new(arena: &mut Nodes<T>, value: T) -> (n: Self)
        requires
            old(arena).wf(),
        ensures
            final(arena).wf(),
            n.index() == old(arena).counts().len(),
            final(arena).counts() == old(arena).counts().push(1),
            final(arena).nexts() == old(arena).nexts().push(None),
            final(arena).values() == old(arena).values().push(value),
    {
        let id = arena.values.len();
        arena.values.push(value);
        arena.nexts.push(None);
        arena.counts.push(1);
        Node { id, marker: PhantomData }
    }

    /// A new node holding `value` that points to `next`.
    pub fn with_next(arena: &mut Nodes<T>, value: T, next: &Self) -> (n: Self)
        requires
            old(arena).wf(),
            old(arena).has(next),
            old(arena).counts()[next.index()] < usize::MAX,
        ensures
            final(arena).wf(),
            n.index() == old(arena).counts().len(),
            final(arena).counts() == old(arena).counts().update(next.index(), (old(arena).counts()[next.index()] + 1) as usize).push(1),
            final(arena).nexts() == old(arena).nexts().push(Some(next.index() as usize)),
            final(arena).values() == old(arena).values().push(value),
    {
        let id = arena.values.len();
        let c = arena.counts[next.id] + 1;
        arena.counts.set(next.id, c);
        arena.values.push(value);
        arena.nexts.push(Some(next.id));
        arena.counts.push(1);
        Node { id, marker: PhantomData }
    }

    /// Points this node to `next`, dropping its previous pointer.
    pub fn point(&mut self, arena: &mut Nodes<T>, next: &Self)
        requires
            old(arena).wf(),
            old(arena).has(old(self)),
            old(arena).has(next),
            old(arena).counts()[next.index()] < usize::MAX,
        ensures
            final(arena).wf(),
            *final(self) == *old(self),
            final(arena).values() == old(arena).values(),
            final(arena).nexts() == old(arena).nexts().update(old(self).index(), Some(next.index() as usize)),
            ({
                let c1 = old(arena).counts().update(next.index(), (old(arena).counts()[next.index()] + 1) as usize);
                final(arena).counts() == match old(arena).nexts()[old(self).index()] {
                    Some(o) => dropped(c1, final(arena).nexts(), o as int, c1.len()),
                    None => c1,
                }
            }),
    {
        let c = arena.counts[next.id] + 1;
        arena.counts.set(next.id, c);
        let old_next = arena.nexts[self.id];
        arena.nexts.set(self.id, Some(next.id));
        match old_next {
            Some(o) => arena.drop_ref(o),
            None => {},
        }
    }

    /// Points this node nowhere, dropping its previous pointer.
    pub fn point_null(&mut self, arena: &mut Nodes<T>)
        requires
            old(arena).wf(),
            old(arena).has(old(self)),
        ensures
            final(arena).wf(),
            *final(self) == *old(self),
            final(arena).values() == old(arena).values(),
            final(arena).nexts() == old(arena).nexts().update(old(self).index(), None),
            final(arena).counts() == match old(arena).nexts()[old(self).index()] {
                Some(o) => dropped(old(arena).counts(), final(arena).nexts(), o as int, old(arena).counts().len()),
                None => old(arena).counts(),
            },
    {
        let old_next = arena.nexts[self.id];
        arena.nexts.set(self.id, None);
        match old_next {
            Some(o) => arena.drop_ref(o),
            None => {},
        }
    }

    /// The reference count of this node.
    pub fn ref_count(&self, arena: &Nodes<T>) -> (r: usize)
        requires
            arena.wf(),
            arena.has(self),
        ensures
            r == arena.counts()[self.index()],
    {
        arena.counts[self.id]
    }

    /// Another handle to this node: one more reference to it, and to the
    /// node it points to.
    pub fn clone(&self, arena: &mut Nodes<T>) -> (n: Self)
        requires
            old(arena).wf(),
            old(arena).has(self),
            old(arena).counts()[self.index()] < usize::MAX,
            old(arena).nexts()[self.index()] matches Some(m) ==> old(arena).counts()[m as int] < usize::MAX - 1,
        ensures
            final(arena).wf(),
            n.index() == self.index(),
            final(arena).values() == old(arena).values(),
            final(arena).nexts() == old(arena).nexts(),
            final(arena).counts() == cloned_counts(old(arena).counts(), old(arena).nexts(), self.index()),
    {
        let c = arena.counts[self.id] + 1;
        arena.counts.set(self.id, c);
        match arena.nexts[self.id] {
            Some(m) => {
                let cm = arena.counts[m] + 1;
                arena.counts.set(m, cm);
            },
            None => {},
        }
        Node { id: self.id, marker: PhantomData }
    }

    /// A new handle to the node this one points to, if any.
    pub fn next(&self, arena: &mut Nodes<T>) -> (r: Option<Self>)
        requires
            old(arena).wf(),
            old(arena).has(self),
            forall|i: int| 0 <= i < old(arena).counts().len() ==> #[trigger] old(arena).counts()[i] < usize::MAX - 1,
        ensures
            final(arena).wf(),
            final(arena).values() == old(arena).values(),
            final(arena).nexts() == old(arena).nexts(),
            match old(arena).nexts()[self.index()] {
                None => r is None && final(arena).counts() == old(arena).counts(),
                Some(m) => r matches Some(n) && n.index() == m
                    && final(arena).counts() == cloned_counts(old(arena).counts(), old(arena).nexts(), m as int),
            },
    {
        match arena.nexts[self.id] {
            None => None,
            Some(m) => {
                let n = Node { id: m, marker: PhantomData };
                Some(n.clone(arena))
            },
        }
    }

    /// Drops this handle: one reference less to the node it points to, then
    /// to this node, freeing nodes whose count reaches zero.
    pub fn release(self, arena: &mut Nodes<T>)
        requires
            old(arena).wf(),
            old(arena).has(&self),
        ensures
            final(arena).wf(),
            final(arena).values() == old(arena).values(),
            final(arena).nexts() == old(arena).nexts(),
            final(arena).counts() == released_counts(old(arena).counts(), old(arena).nexts(), self.index()),
    {
        match arena.nexts[self.id] {
            Some(m) => arena.drop_ref(m),
            None => {},
        }
        arena.drop_ref(self.id);
    }

    /// The value held by this node.
    pub fn value<'a>(&self, arena: &'a Nodes<T>) -> (r: &'a T)
        requires
            arena.wf(),
            arena.has(self),
        ensures
            *r == arena.values()[self.index()],
    {
        &arena.values[self.id]
    }

    /// The value held by this node, to change it.
    pub fn value_mut<'a>(&self, arena: &'a mut Nodes<T>) -> (r: &'a mut T)
        requires
            old(arena).wf(),
            old(arena).has(self),
        ensures
            *r == old(arena).values()[self.index()],
            final(arena).wf(),
            final(arena).values() == old(arena).values().update(self.index(), *final(r)),
            final(arena).counts() == old(arena).counts(),
            final(arena).nexts() == old(arena).nexts(),
    {
        &mut arena.values[self.id]
    }
}

/// Counts after `clone` of a handle to node `i`.
pub open spec fn cloned_counts(counts: Seq<usize>, nexts: Seq<Option<usize>>, i: int) -> Seq<usize> {
    let c1 = counts.update(i, (counts[i] + 1) as usize);
    match nexts[i] {
        Some(m) => c1.update(m as int, (c1[m as int] + 1) as usize),
        None => c1,
    }
}

/// Counts after `release` of a handle to node `i`.
pub open spec fn released_counts(counts: Seq<usize>, nexts: Seq<Option<usize>>, i: int) -> Seq<usize> {
    let c1 = match nexts[i] {
        Some(m) => dropped(counts, nexts, m as int, counts.len()),
        None => counts,
    };
    dropped(c1, nexts, i, c1.len())
}

/// Releasing a handle right after cloning it gives back the counts from
/// before the clone, when the node and the node it points to are alive.
pub proof fn law_release_undoes_clone(counts: Seq<usize>, nexts: Seq<Option<usize>>, i: int)
    requires
        0 <= i < counts.len(),
        nexts.len() == counts.len(),
        1 <= counts[i] < usize::MAX,
        nexts[i] matches Some(m) ==> 0 <= m < counts.len() && 1 <= counts[m as int] < usize::MAX - 1,
    ensures
        released_counts(cloned_counts(counts, nexts, i), nexts, i) == counts,
{
    let c = cloned_counts(counts, nexts, i);
    reveal_with_fuel(dropped, 2);
    match nexts[i] {
        Some(m) => {
            let d = dropped(c, nexts, m as int, c.len());
            assert(d =~= counts.update(i, (counts[i] + 1) as usize));
            assert(dropped(d, nexts, i, d.len()) =~= counts);
        },
        None => {
            assert(dropped(c, nexts, i, c.len()) =~= counts);
        },
    }
}

} // verus!
