//! A single-threaded allocator of fixed-size slots in one region. Slots are
//! named by their byte offset in the region. Freed slots are reused lowest
//! address first; freeing the slot just below the top lowers the top, and
//! keeps lowering it over freed slots directly below.

use std::marker::PhantomData;
use vstd::prelude::*;

verus! {

/// The state after freeing the slot just below `top`: the top drops over
/// every freed slot that sits directly below it.
pub open spec fn settle(top: int, idle: Seq<usize>, size: int) -> (int, Seq<usize>)
    decreases idle.len(),
{
    if idle.len() > 0 && idle.last() == top - size {
        settle(top - size, idle.drop_last(), size)
    } else {
        (top, idle)
    }
}

/// `x` is a multiple of the slot size.
pub open spec fn aligned(x: int, size: int) -> bool {
    size == 0 || x % size == 0
}

proof fn lemma_aligned_gap(a: int, b: int, s: int)
    by (nonlinear_arith)
    requires
        s > 0,
        0 <= a < b,
        a % s == 0,
        b % s == 0,
    ensures
        a + s <= b,
{
    assert(a == (a / s) * s);
    assert(b == (b / s) * s);
    assert(a / s < b / s);
}

proof fn lemma_aligned_step(a: int, s: int)
    requires
        s > 0,
        a >= 0,
        a % s == 0,
    ensures
        (a + s) % s == 0,
        a >= s ==> (a - s) % s == 0,
{
    let q = a / s;
    vstd::arithmetic::div_mod::lemma_fundamental_div_mod(a, s);
    assert(a == q * s) by (nonlinear_arith)
        requires a == s * q + a % s, a % s == 0;
    assert(a + s == (q + 1) * s) by (nonlinear_arith)
        requires a == q * s;
    assert(a - s == (q - 1) * s) by (nonlinear_arith)
        requires a == q * s;
    vstd::arithmetic::div_mod::lemma_mod_multiples_basic(q + 1, s);
    vstd::arithmetic::div_mod::lemma_mod_multiples_basic(q - 1, s);
}

proof fn lemma_aligned_step_down(a: int, s: int)
    requires
        s > 0,
        a >= s,
        a % s == 0,
    ensures
        (a - s) % s == 0,
{
    lemma_aligned_step(a, s);
}

pub open spec fn strictly_ascending(s: Seq<usize>) -> bool {
    forall|i: int, j: int| 0 <= i < j < s.len() ==> s[i] < s[j]
}

/// Freeing the slot just below the top lowers the top only over that slot
/// and freed slots directly below it: no slot still handed out ends up at or
/// above the new top.
pub proof fn law_put_lowers_top_over_freed_only(top: int, idle: Seq<usize>, size: int, ptr: usize)
    requires
        size > 0,
        ptr + size == top,
        aligned(top, size),
        strictly_ascending(idle),
        !idle.contains(ptr),
        forall|i: int| 0 <= i < idle.len() ==> #[trigger] idle[i] + size <= top,
        forall|i: int| 0 <= i < idle.len() ==> aligned(#[trigger] idle[i] as int, size),
    ensures
        forall|x: int| settle(ptr as int, idle, size).0 <= x < top && aligned(x, size)
            ==> x == ptr || #[trigger] idle.contains(x as usize),
{
    assert(aligned(ptr as int, size)) by {
        lemma_aligned_step_down(top, size);
    }
    assert forall|i: int| 0 <= i < idle.len() implies #[trigger] idle[i] + size <= ptr by {
        assert(idle[i] != ptr) by {
            if idle[i] == ptr {
                assert(idle.contains(ptr));
            }
        }
        assert(aligned(idle[i] as int, size));
        lemma_aligned_gap(idle[i] as int, ptr as int, size);
    }
    law_settle_passes_only_freed_slots(ptr as int, idle, size);
    assert forall|x: int| settle(ptr as int, idle, size).0 <= x < top && aligned(x, size)
        implies x == ptr || #[trigger] idle.contains(x as usize) by {
        if x > ptr {
            lemma_aligned_gap(ptr as int, x, size);
        }
    }
}

/// Lowering the top after a free passes only over freed slots: every slot
/// between the new top and the old one was idle, and the idle slots that
/// remain are exactly the old idle slots below the new top. So a slot that
/// is still handed out never ends up at or above the top.
pub proof fn law_settle_passes_only_freed_slots(top: int, idle: Seq<usize>, size: int)
    requires
        size > 0,
        top >= 0,
        aligned(top, size),
        strictly_ascending(idle),
        forall|i: int| 0 <= i < idle.len() ==> #[trigger] idle[i] + size <= top,
        forall|i: int| 0 <= i < idle.len() ==> aligned(#[trigger] idle[i] as int, size),
    ensures
        settle(top, idle, size).0 <= top,
        forall|x: int| settle(top, idle, size).0 <= x < top && aligned(x, size)
            ==> #[trigger] idle.contains(x as usize),
        forall|y: usize| #[trigger] settle(top, idle, size).1.contains(y)
            <==> (idle.contains(y) && y < settle(top, idle, size).0),
    decreases idle.len(),
{
    if idle.len() > 0 && idle.last() == top - size {
        let rest = idle.drop_last();
        let t1 = top - size;
        assert forall|i: int| 0 <= i < rest.len() implies #[trigger] rest[i] + size <= t1 by {
            assert(idle[i] < idle[idle.len() - 1]);
            assert(aligned(idle[i] as int, size));
            lemma_aligned_gap(rest[i] as int, t1, size);
        }
        assert forall|i: int| 0 <= i < rest.len() implies aligned(#[trigger] rest[i] as int, size) by {
            assert(aligned(idle[i] as int, size));
        }
        assert(aligned(t1, size)) by {
            assert(aligned(idle[idle.len() - 1] as int, size));
        }
        law_settle_passes_only_freed_slots(t1, rest, size);
        let t2 = settle(t1, rest, size).0;
        assert forall|x: int| t2 <= x < top && aligned(x, size) implies #[trigger] idle.contains(x as usize) by {
            if x < t1 {
                assert(rest.contains(x as usize));
                let k = choose|k: int| 0 <= k < rest.len() && rest[k] == x as usize;
                assert(idle[k] == x as usize);
            } else {
                if x != t1 {
                    lemma_aligned_gap(t1, x, size);
                }
                assert(idle[idle.len() - 1] == x as usize);
            }
        }
        assert forall|y: usize| #[trigger] settle(top, idle, size).1.contains(y)
            <==> (idle.contains(y) && y < t2) by {
            if idle.contains(y) && y < t2 {
                let k = choose|k: int| 0 <= k < idle.len() && idle[k] == y;
                assert(k != idle.len() - 1);
                assert(rest[k] == y);
            }
            if rest.contains(y) {
                let k = choose|k: int| 0 <= k < rest.len() && rest[k] == y;
                assert(idle[k] == y);
            }
        }
    } else {
        assert forall|y: usize| #[trigger] idle.contains(y) implies y < top by {
            let k = choose|k: int| 0 <= k < idle.len() && idle[k] == y;
            assert(idle[k] + size <= top);
        }
    }
}

/// A slot allocator over a region of `cap` bytes.
pub struct Heap<T> {
    cap: usize,
    top: usize,
    size: usize,
    idle: Vec<usize>,
    marker: PhantomData<T>,
}

impl<T> Heap<T> {
    /// Byte offset of the first slot never handed out since the top last rose.
    pub closed spec fn top(&self) -> int {
        self.top as int
    }

    /// The region size, in bytes.
    pub closed spec fn cap(&self) -> int {
        self.cap as int
    }

    /// Bytes per slot.
    pub closed spec fn slot_size(&self) -> int {
        self.size as int
    }

    /// Freed slots below the top, ascending.
    pub closed spec fn idle_slots(&self) -> Seq<usize> {
        self.idle@
    }

    pub closed spec fn wf(&self) -> bool {
        &&& strictly_ascending(self.idle@)
        &&& forall|i: int| 0 <= i < self.idle@.len() ==> #[trigger] self.idle@[i] + self.size <= self.top
        &&& forall|i: int| 0 <= i < self.idle@.len() ==> aligned(#[trigger] self.idle@[i] as int, self.size as int)
        &&& aligned(self.top as int, self.size as int)
    }

    /// In a well-formed heap the freed slots are ascending, aligned, and
    /// below the top.
    pub proof fn lemma_idle_order(&self)
        requires
            self.wf(),
        ensures
            strictly_ascending(self.idle_slots()),
            forall|i: int| 0 <= i < self.idle_slots().len()
                ==> #[trigger] self.idle_slots()[i] + self.slot_size() <= self.top(),
            forall|i: int| 0 <= i < self.idle_slots().len()
                ==> aligned(#[trigger] self.idle_slots()[i] as int, self.slot_size()),
            aligned(self.top(), self.slot_size()),
    {
    }

    pub fn new(cap: usize) -> (h: Self)
        ensures
            h.wf(),
            h.top() == 0,
            h.cap() == cap,
            h.slot_size() == vstd::layout::size_of::<T>(),
            h.idle_slots() == Seq::<usize>::empty(),
    {
        let size = core::mem::size_of::<T>();
        Heap { cap, top: 0, size, idle: Vec::new(), marker: PhantomData }
    }

    /// Hands out the lowest freed slot; with none freed, the slot at the top
    /// if the top is below `cap`; otherwise nothing.
    pub fn get(&mut self) -> (r: Option<usize>)
        requires
            old(self).wf(),
            old(self).top() + old(self).slot_size() <= usize::MAX,
        ensures
            final(self).wf(),
            strictly_ascending(final(self).idle_slots()),
            final(self).cap() == old(self).cap(),
            final(self).slot_size() == old(self).slot_size(),
            old(self).idle_slots().len() > 0 ==> r == Some(old(self).idle_slots()[0])
                && final(self).idle_slots() == old(self).idle_slots().drop_first()
                && final(self).top() == old(self).top(),
            old(self).idle_slots().len() == 0 && old(self).top() < old(self).cap() ==> r == Some(
                old(self).top() as usize,
            ) && final(self).top() == old(self).top() + old(self).slot_size() && final(self).idle_slots()
                == old(self).idle_slots(),
            old(self).idle_slots().len() == 0 && old(self).top() >= old(self).cap() ==> r is None
                && *final(self) == *old(self),
    {
        if self.idle.len() > 0 {
            let p = self.idle.remove(0);
            proof {
                assert(self.idle@ =~= old(self).idle@.drop_first());
            }
            Some(p)
        } else if self.top < self.cap {
            let ptr = self.top;
            self.top = self.top + self.size;
            proof {
                if self.size > 0 {
                    lemma_aligned_step(ptr as int, self.size as int);
                }
            }
            Some(ptr)
        } else {
            None
        }
    }

    /// Frees the slot at `ptr`.
    pub fn put(&mut self, ptr: usize)
        requires
            old(self).wf(),
            ptr + old(self).slot_size() <= old(self).top(),
            aligned(ptr as int, old(self).slot_size()),
            !old(self).idle_slots().contains(ptr),
        ensures
            final(self).wf(),
            strictly_ascending(final(self).idle_slots()),
            final(self).cap() == old(self).cap(),
            final(self).slot_size() == old(self).slot_size(),
            ptr + old(self).slot_size() == old(self).top() ==> (final(self).top(), final(self).idle_slots())
                == settle(old(self).top() - old(self).slot_size(), old(self).idle_slots(), old(self).slot_size()),
            ptr + old(self).slot_size() != old(self).top() ==> {
                &&& final(self).top() == old(self).top()
                &&& final(self).idle_slots().len() == old(self).idle_slots().len() + 1
                &&& final(self).idle_slots().to_set() == old(self).idle_slots().to_set().insert(ptr)
            },
    {
        if ptr == self.top - self.size {
            self.top = self.top - self.size;
            proof {
                assert forall|i: int| 0 <= i < self.idle@.len() implies #[trigger] self.idle@[i] + self.size <= self.top by {
                    if self.size > 0 {
                        assert(self.idle@[i] != ptr);
                        lemma_aligned_gap(self.idle@[i] as int, ptr as int, self.size as int);
                    } else {
                        assert(self.idle@[i] != ptr);
                    }
                }
            }
            while self.idle.len() > 0
                invariant
                    self.wf(),
                    self.size == old(self).size,
                    self.cap == old(self).cap,
                    settle(self.top as int, self.idle@, self.size as int) == settle(
                        old(self).top - old(self).size,
                        old(self).idle@,
                        old(self).size as int,
                    ),
                ensures
                    self.wf(),
                    self.size == old(self).size,
                    self.cap == old(self).cap,
                    settle(self.top as int, self.idle@, self.size as int) == (self.top as int, self.idle@),
                    settle(self.top as int, self.idle@, self.size as int) == settle(
                        old(self).top - old(self).size,
                        old(self).idle@,
                        old(self).size as int,
                    ),
                decreases self.idle@.len(),
            {
                let p = self.idle[self.idle.len() - 1];
                if p != self.top - self.size {
                    break;
                }
                let ghost pre = self.idle@;
                self.top = self.top - self.size;
                self.idle.pop();
                proof {
                    assert forall|i: int| 0 <= i < self.idle@.len() implies #[trigger] self.idle@[i] + self.size <= self.top by {
                        assert(pre[i] < pre[pre.len() - 1]);
                        if self.size > 0 {
                            lemma_aligned_gap(self.idle@[i] as int, p as int, self.size as int);
                        }
                    }
                }
            }
        } else {
            let mut i = self.idle.len();
            while i > 0 && self.idle[i - 1] > ptr
                invariant
                    i <= self.idle@.len(),
                    *self == *old(self),
                    forall|j: int| i <= j < self.idle@.len() ==> self.idle@[j] > ptr,
                decreases i,
            {
                i -= 1;
            }
            proof {
                if i > 0 {
                    assert(self.idle@[i - 1] != ptr);
                }
            }
            self.idle.insert(i, ptr);
            proof {
                assert(self.idle@.to_set() =~= old(self).idle@.to_set().insert(ptr)) by {
                    assert forall|x: usize| self.idle@.contains(x) == old(self).idle@.to_set().insert(ptr).contains(x) by {
                        if self.idle@.contains(x) {
                            let k = choose|k: int| 0 <= k < self.idle@.len() && self.idle@[k] == x;
                            if k < i {
                                assert(old(self).idle@[k] == x);
                            } else if k > i {
                                assert(old(self).idle@[k - 1] == x);
                            }
                        }
                        if old(self).idle@.contains(x) {
                            let k = choose|k: int| 0 <= k < old(self).idle@.len() && old(self).idle@[k] == x;
                            if k < i {
                                assert(self.idle@[k] == x);
                            } else {
                                assert(self.idle@[k + 1] == x);
                            }
                        }
                        if x == ptr {
                            assert(self.idle@[i as int] == x);
                        }
                    }
                }
            }
        }
    }
}

} // verus!
