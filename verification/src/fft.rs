//! The index permutation that starts a radix-2 FFT: with `n = 2^k` items,
//! the item at index `x` moves to the index whose `k` binary digits are
//! those of `x` in reverse order. The butterflies that follow compute with
//! floating point and stay outside the verified library.

use vstd::prelude::*;
use crate::bits::{bit, lemma_bits_ext};

verus! {

/// `y` holds the `k` low bits of `x` in reverse order, and no higher bit.
pub open spec fn reverses(x: u64, y: u64, k: u64) -> bool {
    &&& y >> k == 0
    &&& forall|q: u64| q < k ==> #[trigger] bit(y, q) == bit(x, (k - 1 - q) as u64)
}

/// `x` with its `k` low bits in reverse order.
pub open spec fn rev_index(x: u64, k: u64) -> u64 {
    choose|y: u64| reverses(x, y, k)
}

/// `n` is `2^k`.
pub open spec fn is_pow2(n: nat, k: u64) -> bool {
    1 <= k < 64 && n == (1u64 << k) as nat
}

/// Bit facts about `2^k`-sized index ranges.
proof fn lemma_index_bits(x: u64, y: u64, r: u64, k: u64, q: u64, n: u64, s: u64) by (bit_vector)
    requires
        1 <= k < 64,
        n == 1u64 << k,
        s == 64 - k,
        q < 64,
    ensures
        y >> k == 0u64 && k <= q ==> !bit(y, q),
        x < n ==> x >> k == 0u64,
        y >> k == 0u64 ==> y < n,
        !bit(0u64, q),
        0u64 >> k == 0u64,
        q < k ==> bit(r >> s, q) == bit(r, (q + s) as u64),
        (r >> s) >> k == 0u64,
        n >= 2,
{
}

/// Bit facts for building a reversal one bit at a time.
proof fn lemma_rev_step(x: u64, y1: u64, k1: u64, q: u64) by (bit_vector)
    requires
        k1 < 63,
        q < 64,
    ensures
        0u64 >> 0u64 == 0u64,
        y1 >> k1 == 0u64 ==> (((x & 1u64) << k1) | y1) >> ((k1 + 1) as u64) == 0u64,
        q < k1 ==> bit(((x & 1u64) << k1) | y1, q) == bit(y1, q),
        q < k1 ==> bit(x >> 1u64, (k1 - 1 - q) as u64) == bit(x, (k1 - q) as u64),
        y1 >> k1 == 0u64 ==> bit(((x & 1u64) << k1) | y1, k1) == bit(x, 0u64),
{
}

/// `2^k` fixes `k`, and its highest set bit is bit `k`.
proof fn lemma_pow2_exponent(n: u64, k: u64, kk: u64, z: u64) by (bit_vector)
    requires
        1 <= k < 64,
        n == 1u64 << k,
    ensures
        z < 64 && (n >> ((63 - z) as u64)) & 1u64 != 0u64 ==> 63 - z == k,
        kk < 64 && n == 1u64 << kk ==> kk == k,
{
}

/// The `k` low bits of `x` reversed, built one bit at a time.
spec fn rev_rec(x: u64, k: u64) -> u64
    decreases k,
{
    if k == 0 {
        0
    } else {
        ((x & 1u64) << ((k - 1) as u64)) | rev_rec(x >> 1u64, (k - 1) as u64)
    }
}

proof fn lemma_rev_rec(x: u64, k: u64)
    requires
        k < 64,
    ensures
        reverses(x, rev_rec(x, k), k),
    decreases k,
{
    if k == 0 {
        lemma_rev_step(x, 0, 0, 0);
    } else {
        let k1 = (k - 1) as u64;
        let x1 = x >> 1u64;
        lemma_rev_rec(x1, k1);
        let y1 = rev_rec(x1, k1);
        let y = rev_rec(x, k);
        assert(y == ((x & 1u64) << k1) | y1);
        lemma_rev_step(x, y1, k1, 0);
        assert forall|q: u64| q < k implies #[trigger] bit(y, q) == bit(x, (k - 1 - q) as u64) by {
            lemma_rev_step(x, y1, k1, q);
            if q < k1 {
                assert(bit(y1, q) == bit(x1, (k1 - 1 - q) as u64));
            }
        }
    }
}

/// `u64::reverse_bits`: bit `q` of the result is bit `63 - q` of `x`.
#[verifier::external_body]
fn reverse_bits64(x: u64) -> (r: u64)
    ensures
        forall|q: u64| q < 64 ==> #[trigger] bit(r, q) == bit(x, (63 - q) as u64),
{
    x.reverse_bits()
}

proof fn lemma_reverses_unique(x: u64, y1: u64, y2: u64, k: u64)
    requires
        1 <= k < 64,
        reverses(x, y1, k),
        reverses(x, y2, k),
    ensures
        y1 == y2,
{
    assert forall|q: u64| q < 64 implies #[trigger] bit(y1, q) == bit(y2, q) by {
        if q < k {
            assert(bit(y1, q) == bit(x, (k - 1 - q) as u64));
            assert(bit(y2, q) == bit(x, (k - 1 - q) as u64));
        } else {
            lemma_index_bits(0, y1, 0, k, q, 1u64 << k, (64 - k) as u64);
            lemma_index_bits(0, y2, 0, k, q, 1u64 << k, (64 - k) as u64);
        }
    }
    lemma_bits_ext(y1, y2);
}

proof fn lemma_reverses_symmetric(x: u64, y: u64, k: u64)
    requires
        1 <= k < 64,
        x >> k == 0,
        reverses(x, y, k),
    ensures
        reverses(y, x, k),
        rev_index(x, k) == y,
        rev_index(y, k) == x,
{
    assert forall|q: u64| q < k implies #[trigger] bit(x, q) == bit(y, (k - 1 - q) as u64) by {
        let p = (k - 1 - q) as u64;
        assert(bit(y, p) == bit(x, (k - 1 - p) as u64));
    }
    assert(reverses(x, y, k));
    assert(reverses(y, x, k));
    lemma_reverses_unique(x, rev_index(x, k), y, k);
    lemma_reverses_unique(y, rev_index(y, k), x, k);
}

/// Every index below `2^k` has a reversal, below `2^k`, whose reversal is
/// the index again.
proof fn lemma_rev_all(n: u64, k: u64)
    requires
        1 <= k < 64,
        n == 1u64 << k,
    ensures
        forall|x: u64| #![trigger rev_index(x, k)] x < n ==> reverses(x, rev_index(x, k), k) && rev_index(x, k) < n
            && rev_index(rev_index(x, k), k) == x,
{
    assert forall|x: u64| #![trigger rev_index(x, k)] x < n implies reverses(x, rev_index(x, k), k) && rev_index(x, k) < n
        && rev_index(rev_index(x, k), k) == x by {
        lemma_rev_rec(x, k);
        let y = rev_rec(x, k);
        lemma_index_bits(x, y, 0, k, 0, n, (64 - k) as u64);
        lemma_reverses_symmetric(x, y, k);
    }
}

/// Reordering by reversed indices: the item at index `x` goes to index
/// `rev_index(x, k)`, by swapping each pair once.
pub fn bit_reverse_permute<T>(b: &mut [T])
    requires
        old(b)@.len() <= 1 || exists|k: u64| is_pow2(old(b)@.len(), k),
    ensures
        final(b)@.len() == old(b)@.len(),
        forall|k: u64, x: int| #![trigger is_pow2(old(b)@.len(), k), final(b)@[x]]
            is_pow2(old(b)@.len(), k) && 0 <= x < old(b)@.len()
                ==> final(b)@[x] == old(b)@[rev_index(x as u64, k) as int],
{
    let n = b.len();
    if n <= 1 {
        proof {
            assert forall|kk: u64| #[trigger] is_pow2(n as nat, kk) implies false by {
                lemma_index_bits(0, 0, 0, kk, 0, 1u64 << kk, (64 - kk) as u64);
            }
        }
        return;
    }
    let ghost k = choose|k: u64| is_pow2(n as nat, k);
    let lz = (n as u64).leading_zeros();
    proof {
        let nn = n as u64;
        vstd::std_specs::bits::axiom_u64_leading_zeros(nn);
        let z = vstd::std_specs::bits::u64_leading_zeros(nn) as u64;
        assert(nn == 1u64 << k);
        assert(z < 64);
        lemma_pow2_exponent(nn, k, 0, z);
    }
    let shift = (lz + 1) as u64;
    assert(shift == 64 - k);
    let ghost b0 = b@;
    proof {
        lemma_rev_all(n as u64, k);
        assert forall|q: u64| q < k implies #[trigger] bit(0u64, q) == bit(0u64, (k - 1 - q) as u64) by {
            lemma_index_bits(0, 0, 0, k, q, n as u64, shift);
            lemma_index_bits(0, 0, 0, k, (k - 1 - q) as u64, n as u64, shift);
        }
        lemma_index_bits(0, 0, 0, k, 0, n as u64, shift);
        assert(reverses(0u64, 0u64, k));
        assert(reverses(0u64, rev_index(0u64, k), k));
        lemma_reverses_unique(0u64, 0u64, rev_index(0u64, k), k);
        assert forall|x: int| 0 <= x < n implies #[trigger] b@[x] == if x < 1 || rev_index(x as u64, k) < 1 {
            b0[rev_index(x as u64, k) as int]
        } else {
            b0[x]
        } by {
            assert(reverses(x as u64, rev_index(x as u64, k), k));
        }
    }
    let mut i: usize = 1;
    while i < n
        invariant
            b@.len() == n,
            n == b0.len(),
            is_pow2(n as nat, k),
            shift == 64 - k,
            1 <= i <= n,
            forall|x: int| 0 <= x < n ==> #[trigger] b@[x] == if x < i || rev_index(x as u64, k) < i {
                b0[rev_index(x as u64, k) as int]
            } else {
                b0[x]
            },
            forall|x: u64| #![trigger rev_index(x, k)] x < n ==> reverses(x, rev_index(x, k), k) && rev_index(x, k) < n
                && rev_index(rev_index(x, k), k) == x,
        decreases n - i,
    {
        let r = reverse_bits64(i as u64);
        let j64 = r >> shift;
        proof {
            let ii = i as u64;
            lemma_index_bits(ii, 0, r, k, 0, n as u64, shift);
            assert forall|q: u64| q < k implies #[trigger] bit(j64, q) == bit(ii, (k - 1 - q) as u64) by {
                assert(bit(r, (q + shift) as u64) == bit(ii, (63 - (q + shift)) as u64));
                lemma_index_bits(ii, 0, r, k, q, n as u64, shift);
            }
            assert(reverses(ii, j64, k));
            lemma_reverses_unique(ii, j64, rev_index(ii, k), k);
        }
        let j = j64 as usize;
        if i < j {
            let ghost pre = b@;
            {
                let (lo, hi) = b.split_at_mut(j);
                core::mem::swap(&mut lo[i], &mut hi[0]);
            }
            proof {
                assert(b@ =~= pre.update(i as int, pre[j as int]).update(j as int, pre[i as int]));
            }
        }
        proof {
            assert forall|x: int| 0 <= x < n implies #[trigger] b@[x] == if x < i + 1 || rev_index(x as u64, k) < i + 1 {
                b0[rev_index(x as u64, k) as int]
            } else {
                b0[x]
            } by {
                assert(reverses(x as u64, rev_index(x as u64, k), k));
            }
        }
        i += 1;
    }
    proof {
        assert forall|kk: u64, x: int| #![trigger is_pow2(old(b)@.len(), kk), b@[x]]
            is_pow2(old(b)@.len(), kk) && 0 <= x < old(b)@.len()
            implies b@[x] == b0[rev_index(x as u64, kk) as int] by {
            assert(kk == k) by {
                lemma_pow2_exponent(n as u64, k, kk, 0);
            }
        }
    }
}

} // verus!
