//! A single-threaded object pool that makes objects in bundles of 64. Each
//! bundle keeps a mask of its idle slots; the pool keeps the bundles that
//! have an idle slot, and hands out the lowest idle slot of the bundle it
//! listed last.

use std::marker::PhantomData;
use vstd::prelude::*;
use crate::bits::{bit, single, lowest_bit, lemma_bit_xor_single, lemma_bit_full, lemma_bit_zero, lemma_no_bits_zero};

verus! {

/// Number of objects in a bundle.
pub const BUNDLE_LEN: usize = 64;

/// Number of set bits of `m` at positions `i..64`.
pub open spec fn ones_from(m: u64, i: int) -> nat
    decreases 64 - i,
{
    if i >= 64 || i < 0 {
        0
    } else {
        (if bit(m, i as u64) { 1nat } else { 0nat }) + ones_from(m, i + 1)
    }
}

/// `u64::count_ones`: the number of ones in the binary representation.
#[verifier::external_body]
fn count_ones(m: u64) -> (r: u32)
    ensures
        r == ones_from(m, 0),
{
    m.count_ones()
}

proof fn lemma_ones_bound(m: u64, i: int)
    requires
        0 <= i <= 64,
    ensures
        ones_from(m, i) <= 64 - i,
    decreases 64 - i,
{
    if i < 64 {
        lemma_ones_bound(m, i + 1);
    }
}

/// Masks that differ only at bit `t`, set in `m` and clear in `m2`, differ
/// by one in the count of set bits from `i` on when `i <= t`.
proof fn lemma_ones_flip(m: u64, m2: u64, t: int, i: int)
    requires
        0 <= i <= 64,
        0 <= t < 64,
        bit(m, t as u64),
        !bit(m2, t as u64),
        forall|o: int| 0 <= o < 64 && o != t ==> #[trigger] bit(m2, o as u64) == bit(m, o as u64),
    ensures
        ones_from(m, i) == ones_from(m2, i) + if i <= t { 1nat } else { 0nat },
    decreases 64 - i,
{
    if i < 64 {
        lemma_ones_flip(m, m2, t, i + 1);
    }
}

/// A mask whose bits are all clear from `i` on counts no set bits there,
/// and one whose bits are all set counts `64 - i`.
proof fn lemma_ones_uniform(m: u64, i: int, set: bool)
    requires
        0 <= i <= 64,
        forall|o: int| i <= o < 64 ==> #[trigger] bit(m, o as u64) == set,
    ensures
        ones_from(m, i) == if set { (64 - i) as nat } else { 0nat },
    decreases 64 - i,
{
    if i < 64 {
        lemma_ones_uniform(m, i + 1, set);
    }
}

struct ThinBundle<T> {
    space: Vec<T>,
    idle: u64,
}

/// An object taken from a pool: the bundle and the slot it lives in.
pub struct PoolBox<T> {
    bundle: usize,
    offset: usize,
    marker: PhantomData<T>,
}

impl<T> PoolBox<T> {
    pub closed spec fn bundle_index(&self) -> int {
        self.bundle as int
    }

    pub closed spec fn offset_index(&self) -> int {
        self.offset as int
    }
}

/// A bundled object pool.
#[verifier::reject_recursive_types(T)]
pub struct Pool<T, G: FnMut() -> T> {
    bundles: Vec<ThinBundle<T>>,
    pool: Vec<usize>,
    newfn: G,
}

impl<T, G: FnMut() -> T> Pool<T, G> {
    /// The generator may be called.
    pub closed spec fn ready(&self) -> bool {
        call_requires(self.newfn, ())
    }

    /// `v` is an object that the generator may make.
    pub closed spec fn makes(&self, v: T) -> bool {
        call_ensures(self.newfn, (), v)
    }

    pub closed spec fn bundle_count(&self) -> nat {
        self.bundles@.len()
    }

    /// Slot `o` of bundle `b` is handed out.
    pub closed spec fn in_use(&self, b: int, o: int) -> bool {
        0 <= b < self.bundles@.len() && 0 <= o < 64 && !bit(self.bundles@[b].idle, o as u64)
    }

    pub closed spec fn value_at(&self, b: int, o: int) -> T {
        self.bundles@[b].space@[o]
    }

    /// The bundles with an idle slot, the one handed out from next last.
    pub closed spec fn open_bundles(&self) -> Seq<usize> {
        self.pool@
    }

    /// Number of idle slots in the listed bundles.
    pub closed spec fn idle_count(&self) -> nat {
        self.idle_count_from(0)
    }

    spec fn idle_count_from(&self, k: int) -> nat
        decreases self.pool@.len() - k,
    {
        if 0 <= k < self.pool@.len() {
            ones_from(self.bundles@[self.pool@[k] as int].idle, 0) + self.idle_count_from(k + 1)
        } else {
            0
        }
    }

    spec fn mask_at(&self, k: int) -> u64 {
        self.bundles@[self.pool@[k] as int].idle
    }

    /// Two pools whose listed masks agree on `k..e` count the same idle
    /// slots there.
    proof fn lemma_count_agree(p: Self, q: Self, k: int, e: int)
        requires
            0 <= k <= e,
            e <= p.pool@.len(),
            e <= q.pool@.len(),
            forall|j: int| k <= j < e ==> #[trigger] p.mask_at(j) == q.mask_at(j),
        ensures
            p.idle_count_from(k) - p.idle_count_from(e) == q.idle_count_from(k) - q.idle_count_from(e),
        decreases e - k,
    {
        if k < e {
            Self::lemma_count_agree(p, q, k + 1, e);
            assert(p.mask_at(k) == q.mask_at(k));
        }
    }

    pub closed spec fn wf(&self) -> bool {
        &&& forall|b: int| 0 <= b < self.bundles@.len() ==> (#[trigger] self.bundles@[b]).space@.len() == 64
        &&& forall|k: int| 0 <= k < self.pool@.len() ==> #[trigger] self.pool@[k] < self.bundles@.len()
        &&& forall|k: int| 0 <= k < self.pool@.len() ==> self.bundles@[#[trigger] self.pool@[k] as int].idle != 0
        &&& forall|b: int| 0 <= b < self.bundles@.len() && self.bundles@[b].idle != 0
            ==> #[trigger] self.pool@.contains(b as usize)
        &&& forall|i: int, j: int| 0 <= i < j < self.pool@.len() ==> self.pool@[i] != self.pool@[j]
    }

    fn with_new(newfn: G) -> (p: Self)
        ensures
            p.wf(),
            p.ready() == call_requires(newfn, ()),
            p.bundle_count() == 0,
            forall|v: T| #[trigger] p.makes(v) == call_ensures(newfn, (), v),
    {
        Pool { bundles: Vec::new(), pool: Vec::new(), newfn }
    }

    /// A pool whose objects come from `generate`, 64 at a time.
    pub fn with_generator(generate: G) -> (p: Self)
        ensures
            p.wf(),
            p.ready() == call_requires(generate, ()),
            p.bundle_count() == 0,
            forall|v: T| #[trigger] p.makes(v) == call_ensures(generate, (), v),
    {
        Self::with_new(generate)
    }

    /// Makes a bundle of 64 new objects.
    fn new_bundle(&mut self) -> (space: Vec<T>)
        requires
            old(self).ready(),
        ensures
            space@.len() == 64,
            *final(self) == *old(self),
            forall|i: int| 0 <= i < 64 ==> old(self).makes(#[trigger] space@[i]),
    {
        let mut space: Vec<T> = Vec::with_capacity(BUNDLE_LEN);
        let mut i: usize = 0;
        while i < BUNDLE_LEN
            invariant
                self.ready(),
                *self == *old(self),
                i <= BUNDLE_LEN,
                space@.len() == i,
                forall|k: int| 0 <= k < i ==> old(self).makes(#[trigger] space@[k]),
            decreases BUNDLE_LEN - i,
        {
            let x = (self.newfn)();
            space.push(x);
            i += 1;
        }
        space
    }

    /// Hands out an idle object: the lowest idle slot of the bundle listed
    /// last, or slot 0 of a new bundle when no bundle has an idle slot.
    pub fn get(&mut self) -> (r: PoolBox<T>)
        requires
            old(self).wf(),
            old(self).ready(),
        ensures
            final(self).wf(),
            final(self).ready(),
            forall|v: T| #[trigger] final(self).makes(v) == old(self).makes(v),
            !old(self).in_use(r.bundle_index(), r.offset_index()),
            final(self).in_use(r.bundle_index(), r.offset_index()),
            old(self).open_bundles().len() == 0 ==> r.bundle_index() == old(self).bundle_count()
                && r.offset_index() == 0 && final(self).bundle_count() == old(self).bundle_count() + 1
                && forall|o: int| 0 <= o < 64 ==> old(self).makes(#[trigger] final(self).value_at(r.bundle_index(), o)),
            old(self).open_bundles().len() == 0 ==> final(self).idle_count() == 63,
            old(self).open_bundles().len() > 0 ==> final(self).idle_count() + 1 == old(self).idle_count(),
            old(self).open_bundles().len() > 0 ==> r.bundle_index() == old(self).open_bundles().last()
                && final(self).bundle_count() == old(self).bundle_count()
                && forall|o: int| 0 <= o < r.offset_index() ==> old(self).in_use(r.bundle_index(), o),
            forall|b: int, o: int| 0 <= b < old(self).bundle_count() && (b, o) != (r.bundle_index(), r.offset_index())
                ==> #[trigger] final(self).in_use(b, o) == old(self).in_use(b, o),
            forall|b: int, o: int| 0 <= b < old(self).bundle_count() ==> #[trigger] final(self).value_at(b, o) == old(self).value_at(b, o),
    {
        let n = self.pool.len();
        if n == 0 {
            let space = self.new_bundle();
            let b = self.bundles.len();
            let idle = (!0u64) ^ 1u64;
            self.bundles.push(ThinBundle { space, idle });
            self.pool.push(b);
            proof {
                assert((!0u64) ^ 1u64 != 0u64) by (bit_vector);
                assert(single(0) == 1u64) by (bit_vector);
                lemma_bit_xor_single(!0u64, 0, 0);
                lemma_bit_full(0);
                assert forall|o: int| 0 < o < 64 implies #[trigger] bit(idle, o as u64) by {
                    lemma_bit_xor_single(!0u64, 0, o as u64);
                    lemma_bit_full(o as u64);
                }
                lemma_ones_uniform(idle, 1, true);
                assert(self.idle_count_from(1) == 0);
                assert(self.idle_count() == ones_from(idle, 0));
                assert forall|bi: int| 0 <= bi < self.bundles@.len() && self.bundles@[bi].idle != 0
                    implies #[trigger] self.pool@.contains(bi as usize) by {
                    if bi < b {
                        assert(old(self).pool@.contains(bi as usize));
                    } else {
                        assert(self.pool@[0] == b);
                    }
                }
            }
            PoolBox { bundle: b, offset: 0, marker: PhantomData }
        } else {
            let b = self.pool[n - 1];
            let m = self.bundles[b].idle;
            let ghost t = lowest_bit(m);
            let offset = m.trailing_zeros() as usize;
            let idle = m ^ (1u64 << (offset as u64));
            self.bundles[b].idle = idle;
            if idle == 0 {
                self.pool.pop();
            }
            proof {
                if idle == 0 {
                    assert(self.pool@ == old(self).pool@.drop_last());
                } else {
                    assert(self.pool@ == old(self).pool@);
                }
                assert forall|o: int| 0 <= o < 64 && o != offset implies #[trigger] bit(idle, o as u64) == bit(m, o as u64) by {
                    lemma_bit_xor_single(m, t, o as u64);
                }
                lemma_bit_xor_single(m, t, t);
                assert forall|bi: int| 0 <= bi < self.bundles@.len() && self.bundles@[bi].idle != 0
                    implies #[trigger] self.pool@.contains(bi as usize) by {
                    if idle == 0 {
                        assert(bi != b);
                        assert(old(self).bundles@[bi] == self.bundles@[bi]);
                        assert(old(self).pool@.contains(bi as usize));
                        let k = choose|k: int| 0 <= k < old(self).pool@.len() && old(self).pool@[k] == bi as usize;
                        assert(old(self).pool@[n - 1] == b);
                        assert(self.bundles.len() == self.bundles@.len());
                        assert(k != n - 1);
                        assert(self.pool@[k] == bi as usize);
                    } else {
                        if bi != b {
                            assert(old(self).bundles@[bi] == self.bundles@[bi]);
                        }
                        assert(old(self).pool@.contains(bi as usize));
                        assert(self.pool@ == old(self).pool@);
                    }
                }
                assert forall|k: int| 0 <= k < self.pool@.len() implies self.bundles@[#[trigger] self.pool@[k] as int].idle != 0 by {
                    assert(self.pool@[k] == old(self).pool@[k]);
                    if self.pool@[k] == b {
                        assert(k == n - 1);
                    }
                }
                assert forall|bi: int, o: int| 0 <= bi < old(self).bundle_count() && (bi, o) != (b as int, offset as int)
                    implies #[trigger] self.in_use(bi, o) == old(self).in_use(bi, o) by {
                    if bi == b && 0 <= o < 64 {
                        lemma_bit_xor_single(m, t, o as u64);
                    }
                }
                let e = n - 1;
                assert forall|j: int| 0 <= j < e implies #[trigger] old(self).mask_at(j) == self.mask_at(j) by {
                    assert(old(self).pool@[j] != old(self).pool@[e]);
                    assert(self.pool@[j] == old(self).pool@[j]);
                }
                Self::lemma_count_agree(*old(self), *self, 0, e as int);
                assert(!bit(idle, t)) by {
                    lemma_bit_xor_single(m, t, t);
                }
                lemma_ones_flip(m, idle, t as int, 0);
                if idle == 0 {
                    assert forall|o: int| 0 <= o < 64 implies #[trigger] bit(idle, o as u64) == false by {
                        lemma_bit_zero(o as u64);
                    }
                    lemma_ones_uniform(idle, 0, false);
                    assert(self.idle_count_from(e as int) == 0);
                } else {
                    assert(self.pool@[e as int] == b);
                    assert(self.idle_count_from(e + 1) == 0);
                    assert(self.idle_count_from(e as int) == ones_from(idle, 0));
                }
                assert(old(self).pool@[e as int] == b);
                assert(old(self).idle_count_from(e + 1) == 0);
                assert(old(self).idle_count_from(e as int) == ones_from(m, 0));
            }
            PoolBox { bundle: b, offset, marker: PhantomData }
        }
    }

    /// Gives an object back; its bundle is listed again if it was full.
    pub fn put(&mut self, x: PoolBox<T>)
        requires
            old(self).wf(),
            old(self).in_use(x.bundle_index(), x.offset_index()),
        ensures
            final(self).wf(),
            final(self).ready() == old(self).ready(),
            forall|v: T| #[trigger] final(self).makes(v) == old(self).makes(v),
            final(self).bundle_count() == old(self).bundle_count(),
            final(self).idle_count() == old(self).idle_count() + 1,
            !final(self).in_use(x.bundle_index(), x.offset_index()),
            forall|b: int, o: int| (b, o) != (x.bundle_index(), x.offset_index()) ==> #[trigger] final(self).in_use(b, o)
                == old(self).in_use(b, o),
            forall|b: int, o: int| 0 <= b < old(self).bundle_count() ==> #[trigger] final(self).value_at(b, o) == old(self).value_at(b, o),
            final(self).open_bundles() == if forall|o: int| 0 <= o < 64 ==> #[trigger] old(self).in_use(x.bundle_index(), o) {
                old(self).open_bundles().push(x.bundle_index() as usize)
            } else {
                old(self).open_bundles()
            },
    {
        let b = x.bundle;
        let offset = x.offset;
        let m = self.bundles[b].idle;
        proof {
            if forall|o: int| 0 <= o < 64 ==> #[trigger] old(self).in_use(b as int, o) {
                assert forall|i: u64| i < 64 implies !#[trigger] bit(m, i) by {
                    assert(old(self).in_use(b as int, i as int));
                }
                lemma_no_bits_zero(m);
            } else {
                let o = choose|o: int| !(0 <= o < 64 ==> #[trigger] old(self).in_use(b as int, o));
                if m == 0 {
                    lemma_bit_zero(o as u64);
                }
            }
        }
        if m == 0 {
            self.pool.push(b);
        }
        let idle = m ^ (1u64 << (offset as u64));
        self.bundles[b].idle = idle;
        proof {
            lemma_bit_xor_single(m, offset as u64, offset as u64);
            if idle == 0 {
                lemma_bit_zero(offset as u64);
            }
            assert forall|bi: int, o: int| 0 <= bi < old(self).bundle_count() implies #[trigger] self.value_at(bi, o) == old(self).value_at(bi, o) by {
                if bi != b {
                    assert(self.bundles@[bi] == old(self).bundles@[bi]);
                } else {
                    assert(self.bundles@[bi].space == old(self).bundles@[bi].space);
                }
            }
            assert forall|bi: int, o: int| (bi, o) != (b as int, offset as int) implies #[trigger] self.in_use(bi, o)
                == old(self).in_use(bi, o) by {
                if bi == b && 0 <= o < 64 {
                    lemma_bit_xor_single(m, offset as u64, o as u64);
                }
            }
            assert forall|bi: int| 0 <= bi < self.bundles@.len() && self.bundles@[bi].idle != 0
                implies #[trigger] self.pool@.contains(bi as usize) by {
                if bi == b {
                    if m == 0 {
                        assert(self.pool@[self.pool@.len() - 1] == b);
                    } else {
                        assert(old(self).pool@.contains(bi as usize));
                        let k = choose|k: int| 0 <= k < old(self).pool@.len() && old(self).pool@[k] == bi as usize;
                        assert(self.pool@[k] == bi as usize);
                    }
                } else {
                    assert(old(self).pool@.contains(bi as usize));
                    let k = choose|k: int| 0 <= k < old(self).pool@.len() && old(self).pool@[k] == bi as usize;
                    assert(self.pool@[k] == bi as usize);
                }
            }
            assert forall|i: int, j: int| 0 <= i < j < self.pool@.len() implies self.pool@[i] != self.pool@[j] by {
                if m == 0 && j == self.pool@.len() - 1 {
                    assert(old(self).bundles@[old(self).pool@[i] as int].idle != 0);
                }
            }
            let n = old(self).pool@.len() as int;
            let t = offset as int;
            assert(!bit(m, offset as u64)) by {
                assert(old(self).in_use(b as int, t));
            }
            assert(bit(idle, offset as u64));
            assert forall|o: int| 0 <= o < 64 && o != t implies #[trigger] bit(m, o as u64) == bit(idle, o as u64) by {
                lemma_bit_xor_single(m, offset as u64, o as u64);
            }
            lemma_ones_flip(idle, m, t, 0);
            if m == 0 {
                assert forall|j: int| 0 <= j < n implies #[trigger] old(self).mask_at(j) == self.mask_at(j) by {
                    assert(old(self).bundles@[old(self).pool@[j] as int].idle != 0);
                    assert(self.pool@[j] == old(self).pool@[j]);
                }
                Self::lemma_count_agree(*old(self), *self, 0, n);
                assert forall|o: int| 0 <= o < 64 implies #[trigger] bit(m, o as u64) == false by {
                    lemma_bit_zero(o as u64);
                }
                lemma_ones_uniform(m, 0, false);
                assert(self.pool@[n] == b);
                assert(self.idle_count_from(n + 1) == 0);
                assert(self.idle_count_from(n) == ones_from(idle, 0));
            } else {
                let bi = b as int;
                assert(0 <= bi < old(self).bundles@.len());
                assert(old(self).bundles@[bi].idle != 0);
                assert(old(self).pool@.contains(bi as usize));
                assert(old(self).pool@.contains(b));
                let kb = choose|k: int| 0 <= k < n && old(self).pool@[k] == b;
                assert forall|j: int| 0 <= j < n && j != kb implies #[trigger] old(self).mask_at(j) == self.mask_at(j) by {
                    assert(old(self).pool@[j] != old(self).pool@[kb]);
                }
                Self::lemma_count_agree(*old(self), *self, 0, kb);
                Self::lemma_count_agree(*old(self), *self, kb + 1, n);
                assert(self.mask_at(kb) == idle);
                assert(old(self).mask_at(kb) == m);
            }
        }
    }

    /// The object a handed-out slot holds.
    pub fn value(&self, x: &PoolBox<T>) -> (r: &T)
        requires
            self.wf(),
            self.in_use(x.bundle_index(), x.offset_index()),
        ensures
            *r == self.value_at(x.bundle_index(), x.offset_index()),
    {
        &self.bundles[x.bundle].space[x.offset]
    }

    /// The object a handed-out slot holds, to change it.
    pub fn value_mut(&mut self, x: &PoolBox<T>) -> (r: &mut T)
        requires
            old(self).wf(),
            old(self).in_use(x.bundle_index(), x.offset_index()),
        ensures
            *r == old(self).value_at(x.bundle_index(), x.offset_index()),
            final(self).wf(),
            final(self).ready() == old(self).ready(),
            forall|v: T| #[trigger] final(self).makes(v) == old(self).makes(v),
            final(self).bundle_count() == old(self).bundle_count(),
            final(self).open_bundles() == old(self).open_bundles(),
            final(self).idle_count() == old(self).idle_count(),
            forall|b: int, o: int| #[trigger] final(self).in_use(b, o) == old(self).in_use(b, o),
            final(self).value_at(x.bundle_index(), x.offset_index()) == *final(r),
            forall|b: int, o: int| 0 <= b < old(self).bundle_count() && 0 <= o < 64
                && (b, o) != (x.bundle_index(), x.offset_index())
                ==> #[trigger] final(self).value_at(b, o) == old(self).value_at(b, o),
    {
        let r = &mut self.bundles[x.bundle].space[x.offset];
        proof {
            let fin = after_borrow(*self);
            let n = old(self).pool@.len() as int;
            assert forall|j: int| 0 <= j < n implies #[trigger] old(self).mask_at(j) == fin.mask_at(j) by {
                let bj = old(self).pool@[j] as int;
                if bj != x.bundle_index() {
                    assert(fin.bundles@[bj] == old(self).bundles@[bj]);
                }
            }
            Self::lemma_count_agree(*old(self), fin, 0, n);
        }
        r
    }

    /// Number of idle objects.
    pub fn idle(&self) -> (r: usize)
        requires
            self.wf(),
            self.open_bundles().len() * 64 <= usize::MAX,
        ensures
            r == self.idle_count(),
    {
        let n = self.pool.len();
        let mut sum: usize = 0;
        let mut k: usize = n;
        while k > 0
            invariant
                n == self.pool@.len(),
                k <= n,
                n * 64 <= usize::MAX,
                sum == self.idle_count_from(k as int),
                sum <= (n - k) * 64,
                forall|j: int| 0 <= j < n ==> #[trigger] self.pool@[j] < self.bundles@.len(),
            decreases k,
        {
            k -= 1;
            let c = count_ones(self.bundles[self.pool[k]].idle);
            proof {
                lemma_ones_bound(self.bundles@[self.pool@[k as int] as int].idle, 0);
            }
            sum = sum + c as usize;
        }
        sum
    }
}

/// A pool whose objects are clones of `value`.
pub fn with_value<T: Clone>(value: T) -> (p: Pool<T, impl FnMut() -> T>)
    ensures
        p.wf(),
        p.ready(),
        p.bundle_count() == 0,
        forall|v: T| #[trigger] p.makes(v) ==> cloned(value, v),
{
    let f = move || -> (r: T)
        ensures
            crate::localpool::clone_of(&value, r),
        {
            value.clone()
        };
    assert(call_requires(f, ()));
    Pool::with_new(f)
}

/// A pool of default-valued objects.
pub fn new<T: Default>() -> (p: Pool<T, impl FnMut() -> T>)
    ensures
        p.wf(),
        p.ready(),
        p.bundle_count() == 0,
{
    let f = || T::default();
    assert(call_requires(f, ()));
    Pool::with_new(f)
}

/// When every slot of a bundle is in use and one of them is given back,
/// the next `get` hands out that same slot.
pub proof fn law_get_after_put_to_full_bundle<T, G: FnMut() -> T>(
    p0: Pool<T, G>,
    p1: Pool<T, G>,
    x: PoolBox<T>,
    r: PoolBox<T>,
)
    requires
        forall|o: int| 0 <= o < 64 ==> #[trigger] p0.in_use(x.bundle_index(), o),
        p0.in_use(x.bundle_index(), x.offset_index()),
        p1.open_bundles() == p0.open_bundles().push(x.bundle_index() as usize),
        !p1.in_use(x.bundle_index(), x.offset_index()),
        forall|b: int, o: int| (b, o) != (x.bundle_index(), x.offset_index()) ==> #[trigger] p1.in_use(b, o)
            == p0.in_use(b, o),
        r.bundle_index() == p1.open_bundles().last(),
        !p1.in_use(r.bundle_index(), r.offset_index()),
        0 <= r.offset_index() < 64,
    ensures
        r.bundle_index() == x.bundle_index(),
        r.offset_index() == x.offset_index(),
{
    assert(0 <= x.bundle_index() < p0.bundle_count());
    if r.offset_index() != x.offset_index() {
        assert(p0.in_use(x.bundle_index(), r.offset_index()));
    }
}

} // verus!
