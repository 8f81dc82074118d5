//! A single-threaded object pool that starts with a few objects made ahead.
//! Objects taken with `get` are handed back with `put` and reused, last
//! returned first; when none is idle, the generator makes a new one.

use vstd::prelude::*;

verus! {

/// Number of objects a pool makes when it is created.
pub const INIT_SIZE: usize = 4;

/// An object taken from a pool.
pub struct PoolBox<T> {
    value: T,
}

impl<T> PoolBox<T> {
    pub closed spec fn view(&self) -> T {
        self.value
    }
}

impl<T> std::ops::Deref for PoolBox<T> {
    type Target = T;

    fn deref(&self) -> (r: &T)
        ensures
            *r == self.view(),
    {
        &self.value
    }
}

impl<T> std::ops::DerefMut for PoolBox<T> {
    fn deref_mut(&mut self) -> (r: &mut T)
        ensures
            *r == old(self).view(),
            final(self).view() == *final(r),
    {
        &mut self.value
    }
}

/// An object pool: idle objects, and a generator for new ones.
#[verifier::reject_recursive_types(T)]
pub struct Pool<T, G: FnMut() -> T> {
    pool: Vec<T>,
    newfn: G,
}

impl<T, G: FnMut() -> T> Pool<T, G> {
    /// The idle objects; the last one is handed out next.
    pub closed spec fn idle_objects(&self) -> Seq<T> {
        self.pool@
    }

    /// The generator may be called.
    pub closed spec fn ready(&self) -> bool {
        call_requires(self.newfn, ())
    }

    /// `v` is an object that the generator may make.
    pub closed spec fn makes(&self, v: T) -> bool {
        call_ensures(self.newfn, (), v)
    }

    /// A pool holding `INIT_SIZE` objects made by `newfn`.
    fn with_new_closure(newfn: G) -> (p: Self)
        requires
            call_requires(newfn, ()),
        ensures
            p.idle_objects().len() == INIT_SIZE,
            p.ready(),
            forall|v: T| #[trigger] p.makes(v) == call_ensures(newfn, (), v),
            forall|i: int| 0 <= i < INIT_SIZE ==> call_ensures(newfn, (), #[trigger] p.idle_objects()[i]),
    {
        let ghost f0 = newfn;
        let mut newfn = newfn;
        let mut pool: Vec<T> = Vec::with_capacity(INIT_SIZE);
        let mut i: usize = 0;
        while i < INIT_SIZE
            invariant
                call_requires(newfn, ()),
                newfn == f0,
                i <= INIT_SIZE,
                pool@.len() == i,
                forall|k: int| 0 <= k < i ==> call_ensures(f0, (), #[trigger] pool@[k]),
            decreases INIT_SIZE - i,
        {
            pool.push(newfn());
            i += 1;
        }
        Pool { pool, newfn }
    }

    /// A pool whose objects come from `generate`, starting with `INIT_SIZE` of them.
    pub fn with_generator(generate: G) -> (p: Self)
        requires
            call_requires(generate, ()),
        ensures
            p.idle_objects().len() == INIT_SIZE,
            p.ready(),
            forall|v: T| #[trigger] p.makes(v) == call_ensures(generate, (), v),
            forall|i: int| 0 <= i < INIT_SIZE ==> call_ensures(generate, (), #[trigger] p.idle_objects()[i]),
    {
        Self::with_new_closure(generate)
    }

    /// Takes the most recently returned idle object, or makes a new one when
    /// none is idle.
    pub fn get(&mut self) -> (r: PoolBox<T>)
        requires
            old(self).ready(),
        ensures
            final(self).ready(),
            forall|v: T| #[trigger] final(self).makes(v) == old(self).makes(v),
            old(self).idle_objects().len() > 0 ==> r.view() == old(self).idle_objects().last()
                && final(self).idle_objects() == old(self).idle_objects().drop_last(),
            old(self).idle_objects().len() == 0 ==> final(self).idle_objects() == old(self).idle_objects()
                && old(self).makes(r.view()),
    {
        match self.pool.pop() {
            Some(x) => PoolBox { value: x },
            None => PoolBox { value: (self.newfn)() },
        }
    }

    /// Returns an object to the pool; it becomes the next one handed out.
    pub fn put(&mut self, x: PoolBox<T>)
        ensures
            final(self).ready() == old(self).ready(),
            forall|v: T| #[trigger] final(self).makes(v) == old(self).makes(v),
            final(self).idle_objects() == old(self).idle_objects().push(x.view()),
    {
        self.pool.push(x.value);
    }
}

/// A pool of default-valued objects.
pub fn new<T: Default>() -> (p: Pool<T, impl FnMut() -> T>)
    ensures
        p.idle_objects().len() == INIT_SIZE,
        p.ready(),
{
    let f = || T::default();
    assert(call_requires(f, ()));
    Pool::with_new_closure(f)
}

/// A pool whose objects are clones of `value`.
pub fn with_value<T: Clone>(value: T) -> (p: Pool<T, impl FnMut() -> T>)
    ensures
        p.idle_objects().len() == INIT_SIZE,
        p.ready(),
        forall|v: T| #[trigger] p.makes(v) ==> cloned(value, v),
        forall|i: int| 0 <= i < INIT_SIZE ==> cloned(value, #[trigger] p.idle_objects()[i]),
{
    let f = move || -> (r: T)
        ensures
            crate::localpool::clone_of(&value, r),
        {
            value.clone()
        };
    assert(call_requires(f, ()));
    Pool::with_new_closure(f)
}

/// An object put into a pool is the next one `get` hands out, and taking it
/// leaves the idle objects as they were before the `put`.
pub proof fn law_get_after_put<T, G: FnMut() -> T>(before: Pool<T, G>, after_put: Pool<T, G>, x: PoolBox<T>)
    requires
        after_put.idle_objects() == before.idle_objects().push(x.view()),
    ensures
        after_put.idle_objects().len() > 0,
        after_put.idle_objects().last() == x.view(),
        after_put.idle_objects().drop_last() == before.idle_objects(),
{
    assert(after_put.idle_objects().drop_last() =~= before.idle_objects());
}

} // verus!
