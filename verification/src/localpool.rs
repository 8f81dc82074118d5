//! A single-threaded object pool. Objects taken with `get` are handed back
//! with `put` and reused, last returned first; when no object is idle, the
//! pool's generator makes a new one.

use vstd::prelude::*;

verus! {

/// An object taken from a pool.
pub struct PoolBox<T> {
    value: T,
}

impl<T> PoolBox<T> {
    pub closed spec fn view(&self) -> T {
        self.value
    }

    pub fn value(&self) -> (r: &T)
        ensures
            *r == self.view(),
    {
        &self.value
    }

    pub fn value_mut(&mut self) -> (r: &mut T)
        ensures
            *r == old(self).view(),
            final(self).view() == *final(r),
    {
        &mut self.value
    }
}

impl<T> std::ops::Deref for PoolBox<T> {
    type Target = T;

    fn deref(&self) -> (r: &T)
        ensures
            *r == self.view(),
    {
        &self.value
    }
}

impl<T> std::ops::DerefMut for PoolBox<T> {
    fn deref_mut(&mut self) -> (r: &mut T)
        ensures
            *r == old(self).view(),
            final(self).view() == *final(r),
    {
        &mut self.value
    }
}

/// `Vec::capacity`: how many items the list can hold without reallocating.
/// Nothing is stated of it: it depends on the allocator.
#[verifier::external_body]
fn idle_capacity<T>(v: &Vec<T>) -> usize {
    v.capacity()
}

/// `Vec::shrink_to`: frees buffer space, keeping the items.
#[verifier::external_body]
fn idle_shrink_to<T>(v: &mut Vec<T>, min_capacity: usize)
    ensures
        final(v)@ == old(v)@,
{
    v.shrink_to(min_capacity)
}

/// An object pool: idle objects, and a generator for new ones.
#[derive(Clone)]
#[verifier::reject_recursive_types(T)]
pub struct Pool<T, G: FnMut() -> T> {
    pool: Vec<T>,
    newfn: G,
}

impl<T, G: FnMut() -> T> Pool<T, G> {
    /// The idle objects; the last one is handed out next.
    pub closed spec fn idle_objects(&self) -> Seq<T> {
        self.pool@
    }

    /// The generator may be called.
    pub closed spec fn ready(&self) -> bool {
        call_requires(self.newfn, ())
    }

    /// `v` is an object that the generator may make.
    pub closed spec fn makes(&self, v: T) -> bool {
        call_ensures(self.newfn, (), v)
    }

    fn with_new(newfn: G) -> (p: Self)
        ensures
            p.idle_objects() == Seq::<T>::empty(),
            p.ready() == call_requires(newfn, ()),
            forall|v: T| #[trigger] p.makes(v) == call_ensures(newfn, (), v),
    {
        Pool { pool: Vec::new(), newfn }
    }

    /// A pool whose new objects come from `generate`.
    pub fn with_generator(generate: G) -> (p: Self)
        ensures
            p.idle_objects() == Seq::<T>::empty(),
            p.ready() == call_requires(generate, ()),
            forall|v: T| #[trigger] p.makes(v) == call_ensures(generate, (), v),
    {
        Self::with_new(generate)
    }

    /// Takes the most recently returned idle object, or makes a new one when
    /// none is idle.
    pub fn get(&mut self) -> (r: PoolBox<T>)
        requires
            old(self).ready(),
        ensures
            final(self).ready(),
            forall|v: T| #[trigger] final(self).makes(v) == old(self).makes(v),
            old(self).idle_objects().len() > 0 ==> r.view() == old(self).idle_objects().last()
                && final(self).idle_objects() == old(self).idle_objects().drop_last(),
            old(self).idle_objects().len() == 0 ==> final(self).idle_objects() == old(self).idle_objects()
                && old(self).makes(r.view()),
    {
        match self.pool.pop() {
            Some(x) => PoolBox { value: x },
            None => PoolBox { value: (self.newfn)() },
        }
    }

    /// Returns an object to the pool; it becomes the next one handed out.
    pub fn put(&mut self, b: PoolBox<T>)
        ensures
            final(self).ready() == old(self).ready(),
            forall|v: T| #[trigger] final(self).makes(v) == old(self).makes(v),
            final(self).idle_objects() == old(self).idle_objects().push(b.view()),
    {
        self.pool.push(b.value);
    }

    /// Number of idle objects.
    pub fn idle(&self) -> (r: usize)
        ensures
            r == self.idle_objects().len(),
    {
        self.pool.len()
    }

    /// Makes `additional` more idle objects.
    pub fn reserve(&mut self, additional: usize)
        requires
            old(self).ready(),
            old(self).idle_objects().len() + additional <= usize::MAX,
        ensures
            final(self).ready(),
            forall|v: T| #[trigger] final(self).makes(v) == old(self).makes(v),
            final(self).idle_objects().len() == old(self).idle_objects().len() + additional,
            final(self).idle_objects().subrange(0, old(self).idle_objects().len() as int)
                == old(self).idle_objects(),
            forall|i: int| old(self).idle_objects().len() <= i < final(self).idle_objects().len()
                ==> old(self).makes(#[trigger] final(self).idle_objects()[i]),
    {
        let target = self.pool.len() + additional;
        while self.pool.len() < target
            invariant
                self.ready(),
                self.newfn == old(self).newfn,
                forall|i: int| old(self).idle_objects().len() <= i < self.pool@.len()
                    ==> old(self).makes(#[trigger] self.pool@[i]),
                target == old(self).idle_objects().len() + additional,
                old(self).idle_objects().len() <= self.pool@.len() <= target,
                self.pool@.subrange(0, old(self).idle_objects().len() as int) == old(self).idle_objects(),
            decreases target - self.pool@.len(),
        {
            let x = (self.newfn)();
            self.pool.push(x);
            proof {
                assert(self.pool@.subrange(0, old(self).idle_objects().len() as int) =~= old(self).idle_objects());
            }
        }
    }

    /// Drops `n` idle objects, the most recently returned first; all of them
    /// when fewer than `n` are idle.
    pub fn release(&mut self, n: usize)
        ensures
            final(self).ready() == old(self).ready(),
            forall|v: T| #[trigger] final(self).makes(v) == old(self).makes(v),
            final(self).idle_objects() == if n > old(self).idle_objects().len() {
                Seq::<T>::empty()
            } else {
                old(self).idle_objects().subrange(0, old(self).idle_objects().len() - n)
            },
    {
        if n > self.pool.len() {
            self.pool.clear();
        } else {
            let keep = self.pool.len() - n;
            self.pool.truncate(keep);
        }
        let len = self.pool.len();
        let cap = idle_capacity(&self.pool);
        if cap > 64 && len < cap >> 2u32 {
            assert(len << 1u32 == len * 2) by (bit_vector)
                requires len < cap >> 2u32;
            idle_shrink_to(&mut self.pool, len << 1u32);
        }
    }
}

/// A pool of default-valued objects.
pub fn new<T: Default>() -> (p: Pool<T, impl FnMut() -> T + Clone>)
    ensures
        p.idle_objects() == Seq::<T>::empty(),
        p.ready(),
{
    let f = || T::default();
    assert(call_requires(f, ()));
    Pool::with_new(f)
}

/// `r` is a clone of `*v`.
pub open spec fn clone_of<T: Clone>(v: &T, r: T) -> bool {
    cloned(*v, r)
}

/// A pool whose new objects are clones of `value`.
pub fn with_value<T: Clone>(value: T) -> (p: Pool<T, impl FnMut() -> T + Clone>)
    ensures
        p.idle_objects() == Seq::<T>::empty(),
        p.ready(),
        forall|v: T| #[trigger] p.makes(v) ==> cloned(value, v),
{
    let f = move || -> (r: T)
        ensures
            clone_of(&value, r),
        {
            value.clone()
        };
    assert(call_requires(f, ()));
    Pool::with_new(f)
}

/// An object put into a pool is the next one `get` hands out, and taking it
/// leaves the idle objects as they were before the `put`.
pub proof fn law_get_after_put<T, G: FnMut() -> T>(before: Pool<T, G>, after_put: Pool<T, G>, x: PoolBox<T>)
    requires
        after_put.idle_objects() == before.idle_objects().push(x.view()),
    ensures
        after_put.idle_objects().len() > 0,
        after_put.idle_objects().last() == x.view(),
        after_put.idle_objects().drop_last() == before.idle_objects(),
{
    assert(after_put.idle_objects().drop_last() =~= before.idle_objects());
}

} // verus!
