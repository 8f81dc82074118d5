//! A fixed-length slice of bits stored in 128-bit words, with bit access,
//! range reversal and range rotation.
//!
//! `set` only ever sets bits: asked to clear a set bit, it leaves the bit
//! set. Swapping two bits with it therefore leaves both set when either was
//! set, and the range operations built on swaps behave accordingly; the
//! contracts below state what the operations do.

use vstd::prelude::*;
use vstd::string::StringExecFns;
use crate::bits::{bit, lemma_no_bits_zero};

verus! {

/// Bit `q` of a word.
pub open spec fn wbit(w: u128, q: int) -> bool {
    (w >> (q as u128)) & 1u128 == 1u128
}

/// All bits of the words, word `i` holding bits `128 * i .. 128 * i + 128`.
pub open spec fn raw_bits(words: Seq<u128>) -> Seq<bool> {
    Seq::new(words.len() * 128, |p: int| wbit(words[p / 128], p % 128))
}

/// The bits after swapping bits `m` and `n` with `set`: each becomes set
/// if either was.
pub open spec fn or_pairs(r: Seq<bool>, from: int, to: int, count: int) -> Seq<bool> {
    Seq::new(
        r.len(),
        |i: int|
            if (from <= i < from + count) || (to - count < i <= to) {
                r[i] || r[from + to - i]
            } else {
                r[i]
            },
    )
}

proof fn lemma_wbit_single(w: u128, k: u128, q: u128) by (bit_vector)
    requires
        k < 128,
        q < 128,
    ensures
        ((w & (1u128 << k)) != 0u128) == ((w >> k) & 1u128 == 1u128),
        ((w ^ (1u128 << k)) >> q) & 1u128 == 1u128 <==> (if q == k {
            !((w >> q) & 1u128 == 1u128)
        } else {
            (w >> q) & 1u128 == 1u128
        }),
        w ^ 0u128 == w,
        0u128 ^ w == w,
        0u128 << k == 0u128,
        (0u128 >> q) & 1u128 != 1u128,
        1u128 << k >= 1u128,
{
}

/// What `u128::reverse_bits` returns for `x`.
pub uninterp spec fn reverse_bits_of(x: u128) -> u128;

/// What `u128::rotate_right` returns for `x` and `n`.
pub uninterp spec fn rotate_right_of(x: u128, n: u32) -> u128;

/// `u128::reverse_bits`: the least significant bit becomes the most
/// significant, and so on.
#[verifier::external_body]
fn reverse_bits(x: u128) -> (r: u128)
    ensures
        r == reverse_bits_of(x),
        forall|q: int| 0 <= q < 128 ==> #[trigger] wbit(r, q) == wbit(x, 127 - q),
{
    x.reverse_bits()
}

/// `u128::rotate_right`: shifts right by `n`, the bits shifted out coming
/// back in at the top.
#[verifier::external_body]
fn rotate_right(x: u128, n: u32) -> (r: u128)
    requires
        n < 128,
    ensures
        r == rotate_right_of(x, n),
        forall|p: int| 0 <= p < 128 ==> #[trigger] wbit(r, p) == wbit(x, (p + n) % 128),
{
    x.rotate_right(n)
}

/// One word turned around: rotated right by `o`, then reversed.
pub open spec fn rr(x: u128, o: u32) -> u128 {
    reverse_bits_of(rotate_right_of(x, o))
}

/// The low `o` bits of the turned word are the low `o` bits of the word in
/// reverse order.
pub open spec fn rr_facts(x: u128, o: u32) -> bool {
    forall|q: int| 0 <= q < o ==> #[trigger] wbit(rr(x, o), q) == wbit(x, o - 1 - q)
}

fn turn(x: u128, o: u32) -> (r: u128)
    requires
        o < 128,
    ensures
        r == rr(x, o),
        rr_facts(x, o),
{
    let y = rotate_right(x, o);
    let r = reverse_bits(y);
    proof {
        assert forall|q: int| 0 <= q < o implies #[trigger] wbit(rr(x, o), q) == wbit(x, o - 1 - q) by {
            assert(wbit(r, q) == wbit(y, 127 - q));
            assert(wbit(y, 127 - q) == wbit(x, (127 - q + o) % 128));
            assert((127 - q + o) % 128 == o - 1 - q);
        }
    }
    r
}

/// The mask of the low `o` bits.
pub open spec fn mask_of(o: u32) -> u128 {
    ((1u128 << (o as u128)) - 1u128) as u128
}

proof fn lemma_masked_or(a: u128, b: u128, o: u32, q: int)
    requires
        o < 128,
        0 <= q < 128,
    ensures
        wbit((a | b) & mask_of(o), q) == ((wbit(a, q) || wbit(b, q)) && q < o),
        (a & mask_of(o)) | (b & mask_of(o)) == (a | b) & mask_of(o),
{
    let oo = o as u128;
    let qq = q as u128;
    assert(((((a | b) & ((1u128 << oo) - 1u128) as u128) >> qq) & 1u128 == 1u128) == ((((a >> qq) & 1u128
        == 1u128) || ((b >> qq) & 1u128 == 1u128)) && qq < oo)) by (bit_vector)
        requires oo < 128u128, qq < 128u128;
    assert((a & ((1u128 << oo) - 1u128) as u128) | (b & ((1u128 << oo) - 1u128) as u128) == (a | b) & ((1u128
        << oo) - 1u128) as u128) by (bit_vector)
        requires oo < 128u128;
}

proof fn lemma_masked_zero(o: u32)
    ensures
        o == 0 ==> forall|x: u128| #[trigger] (x & mask_of(o)) == 0u128,
{
    if o == 0 {
        assert(((1u128 << 0u128) - 1u128) as u128 == 0u128) by (bit_vector);
        assert forall|x: u128| #[trigger] (x & mask_of(o)) == 0u128 by {
            assert(x & 0u128 == 0u128) by (bit_vector);
        }
    }
}

proof fn lemma_or_comm_masked(a: u128, b: u128, o: u32)
    ensures
        ((a | b) & mask_of(o)) == ((b | a) & mask_of(o)),
{
    assert(a | b == b | a) by (bit_vector);
}

proof fn lemma_masked_three(a: u128, b: u128, c: u128, o: u32)
    requires
        o < 128,
    ensures
        o != 0 ==> ((((a | b) & mask_of(o)) as u128) & mask_of(o)) | (c & mask_of(o)) == (a | b | c) & mask_of(o),
        o == 0 ==> (a & mask_of(o)) | (c & mask_of(o)) == (a | b | c) & mask_of(o),
{
    let m = mask_of(o);
    assert((((a | b) & m) & m) | (c & m) == (a | b | c) & m) by (bit_vector);
    lemma_masked_zero(o);
}

proof fn lemma_or_bit(a: u128, b: u128, q: int)
    requires
        0 <= q < 128,
    ensures
        wbit(a | b, q) == (wbit(a, q) || wbit(b, q)),
{
    let qq = q as u128;
    assert((((a | b) >> qq) & 1u128 == 1u128) == (((a >> qq) & 1u128 == 1u128) || ((b >> qq) & 1u128 == 1u128)))
        by (bit_vector)
        requires qq < 128u128;
}

proof fn lemma_pos(a: int, s: int)
    by (nonlinear_arith)
    requires
        0 <= s < 128,
    ensures
        (a * 128 + s) / 128 == a,
        (a * 128 + s) % 128 == s,
{
}

proof fn lemma_align(f: int, c: int)
    by (nonlinear_arith)
    requires
        f >= 0,
        0 <= c <= align_count(f),
    ensures
        ((f + c) % 128 == 0) == (c == align_count(f)),
{
}

proof fn lemma_split(p: int)
    by (nonlinear_arith)
    requires
        p >= 0,
    ensures
        p == (p / 128) * 128 + p % 128,
        0 <= p % 128 < 128,
{
}

/// The words written by the aligned part of a long reversal hold the bits
/// that `big_step` describes.
proof fn lemma_big_step_bits(w: Seq<u128>, nw: Seq<u128>, b0: int, k: int, o: u32)
    requires
        nw.len() == w.len(),
        0 <= b0,
        k >= 2,
        b0 + k < w.len(),
        o < 128,
        forall|x: int| 0 <= x <= k ==> #[trigger] nw[b0 + x] == final_word(w, b0, k, o, x),
        forall|y: int| 0 <= y < w.len() && !(b0 <= y <= b0 + k) ==> #[trigger] nw[y] == w[y],
        o != 0 ==> forall|x: int| 0 <= x <= k ==> rr_facts(#[trigger] w[b0 + x], o),
    ensures
        raw_bits(nw) == big_step(raw_bits(w), b0, k, o as int),
{
    let r = raw_bits(w);
    assert forall|p: int| 0 <= p < raw_bits(nw).len() implies #[trigger] raw_bits(nw)[p] == big_step(r, b0, k, o as int)[p] by {
        lemma_split(p);
        let y = p / 128;
        let q = p % 128;
        let x = y - b0;
        let s = o - 1 - q;
        if 0 <= x <= k {
            let m = mask_of(o);
            assert(nw[b0 + x] == final_word(w, b0, k, o, x));
            if x == 0 {
                let a = w[b0] | rr(w[b0 + k], o);
                lemma_masked_or(a, rr(w[b0 + k - 1], o), o, q);
                lemma_or_bit(w[b0], rr(w[b0 + k], o), q);
            } else if x < k {
                lemma_masked_or(rr(w[b0 + k - x], o), rr(w[b0 + k - x - 1], o), o, q);
            } else {
                lemma_masked_or(w[b0 + k], rr(w[b0], o), o, q);
            }
            if q < o {
                let xk = k;
                let xk1 = k - 1;
                let x0 = 0int;
                assert(rr_facts(w[b0 + xk], o));
                assert(rr_facts(w[b0 + xk1], o));
                assert(rr_facts(w[b0 + x0], o));
                lemma_pos(b0, q);
                lemma_pos(b0 + k, s);
                lemma_pos(b0 + k - 1, s);
                lemma_pos(b0 + k, q);
                lemma_pos(b0, s);
                if 0 < x < k {
                    let xa = k - x;
                    let xb = k - x - 1;
                    assert(rr_facts(w[b0 + xa], o));
                    assert(rr_facts(w[b0 + xb], o));
                    lemma_pos(b0 + k - x, s);
                    lemma_pos(b0 + k - x - 1, s);
                }
            }
        }
    }
    assert(raw_bits(nw) =~= big_step(r, b0, k, o as int));
}

/// The word formula of the aligned part of a long reversal: word `b0 + j`
/// of the result, for `j` from 0 to `k`, from the words `w` before.
pub open spec fn final_word(w: Seq<u128>, b0: int, k: int, o: u32, j: int) -> u128 {
    let m = mask_of(o);
    if j == 0 {
        ((w[b0] | rr(w[b0 + k], o) | rr(w[b0 + k - 1], o)) & m) as u128
    } else if j < k {
        ((rr(w[b0 + k - j], o) | rr(w[b0 + k - j - 1], o)) & m) as u128
    } else {
        ((w[b0 + k] | rr(w[b0], o)) & m) as u128
    }
}

/// The bits after the aligned part of a long reversal, from the bits `r`
/// before: in words `b0 ..= b0 + k`, bits at or above `o` are cleared and
/// the bits below `o` are gathered as `final_word` says.
pub open spec fn big_step(r: Seq<bool>, b0: int, k: int, o: int) -> Seq<bool> {
    Seq::new(
        r.len(),
        |p: int|
            {
                let x = p / 128 - b0;
                let q = p % 128;
                let s = o - 1 - q;
                if 0 <= x <= k {
                    if q >= o {
                        false
                    } else if x == 0 {
                        r[b0 * 128 + q] || r[(b0 + k) * 128 + s] || r[(b0 + k - 1) * 128 + s]
                    } else if x < k {
                        r[(b0 + k - x) * 128 + s] || r[(b0 + k - x - 1) * 128 + s]
                    } else {
                        r[(b0 + k) * 128 + q] || r[b0 * 128 + s]
                    }
                } else {
                    r[p]
                }
            },
    )
}

/// Number of swaps that bring `from` to a multiple of 128.
pub open spec fn align_count(from: int) -> int {
    (128 - from % 128) % 128
}

/// What `reverse_range(from, to)` leaves, from the bits `r` before.
pub open spec fn reverse_range_spec(r: Seq<bool>, from: int, to: int) -> Seq<bool> {
    if to - from < 512 {
        or_pairs(r, from, to, (to - from + 1) / 2)
    } else {
        let a = align_count(from);
        let r1 = or_pairs(r, from, to, a);
        let f = from + a;
        let t = to - a;
        let n = t - f + 1;
        big_step(r1, f / 128, n / 128, n % 128)
    }
}

/// Reversing a range of fewer than 512 bits swaps every mirrored pair
/// `(j, from + to - j)` through `set`: afterwards each bit of the range is
/// set exactly when it or its mirror was set before, and bits outside the
/// range are unchanged.
pub proof fn law_short_reversal_swaps_mirrored_pairs(r: Seq<bool>, from: int, to: int)
    requires
        0 <= from <= to < r.len(),
        to - from < 512,
    ensures
        reverse_range_spec(r, from, to).len() == r.len(),
        forall|j: int| from <= j <= to ==> #[trigger] reverse_range_spec(r, from, to)[j] == (r[j] || r[from + to - j]),
        forall|j: int| 0 <= j < r.len() && !(from <= j <= to) ==> #[trigger] reverse_range_spec(r, from, to)[j] == r[j],
{
    let c = (to - from + 1) / 2;
    let r2 = reverse_range_spec(r, from, to);
    assert(r2 == or_pairs(r, from, to, c));
    assert forall|j: int| from <= j <= to implies #[trigger] r2[j] == (r[j] || r[from + to - j]) by {
        if !((from <= j < from + c) || (to - c < j <= to)) {
            assert(j == from + to - j);
        }
    }
}

/// A reversal of 512 bits or more first swaps, through `set`, the pairs
/// that bring `from` to a word boundary: each of those leading bits ends up
/// set exactly when it or its mirror was, and every bit before `from` is
/// unchanged.
pub proof fn law_long_reversal_swaps_leading_pairs(r: Seq<bool>, from: int, to: int)
    requires
        0 <= from <= to < r.len(),
        to - from >= 512,
    ensures
        reverse_range_spec(r, from, to).len() == r.len(),
        forall|j: int| 0 <= j < from ==> #[trigger] reverse_range_spec(r, from, to)[j] == r[j],
        forall|j: int| from <= j < from + align_count(from)
            ==> #[trigger] reverse_range_spec(r, from, to)[j] == (r[j] || r[from + to - j]),
{
    let a = align_count(from);
    let f = from + a;
    assert(f % 128 == 0);
    let r1 = or_pairs(r, from, to, a);
    let t = to - a;
    let n = t - f + 1;
    let r2 = reverse_range_spec(r, from, to);
    assert(r2 == big_step(r1, f / 128, n / 128, n % 128));
    assert forall|j: int| 0 <= j < f implies #[trigger] r2[j] == r1[j] by {
        assert(j / 128 < f / 128);
    }
}

/// A long reversal whose aligned part is a whole number of words also
/// rewrites the word after it, which must exist.
pub open spec fn range_ok(from: int, to: int, words: int) -> bool {
    to - from < 512 || {
        let a = align_count(from);
        let n = to - a - (from + a) + 1;
        n % 128 != 0 || (to - a + 1) / 128 < words
    }
}

/// Bit facts relating a word to its halves, and two words to their xor.
proof fn lemma_word_bits(x: u128, i: u64, a: u128, b: u128, k: u128, r: u128, m: u128) by (bit_vector)
    requires
        i < 64,
        k < 128,
        r < 128,
    ensures
        ((x as u64) >> i) & 1u64 == 1u64 <==> (x >> (i as u128)) & 1u128 == 1u128,
        (((x >> 64u128) as u64) >> i) & 1u64 == 1u64 <==> (x >> ((i + 64) as u128)) & 1u128 == 1u128,
        (x as u64) == 0u64 && ((x >> 64u128) as u64) == 0u64 ==> x == 0u128,
        ((a ^ b) >> k) & 1u128 == 1u128 <==> (((a >> k) & 1u128 == 1u128) != ((b >> k) & 1u128 == 1u128)),
        a ^ b == 0u128 ==> a == b,
        m == ((1u128 << r) - 1) as u128 ==> ((((a & m) ^ (b & m)) >> k) & 1u128 == 1u128 <==> (k < r && (((a >> k)
            & 1u128 == 1u128) != ((b >> k) & 1u128 == 1u128)))),
        (a & m) ^ (b & m) == 0u128 ==> a & m == b & m,
        m == ((1u128 << r) - 1) as u128 && (a & m) == (b & m) && k < r ==> (((a >> k) & 1u128 == 1u128) == ((b >> k)
            & 1u128 == 1u128)),
{
}

/// A word with no set bit is zero.
proof fn lemma_word_zero(x: u128)
    requires
        forall|q: int| 0 <= q < 128 ==> !#[trigger] wbit(x, q),
    ensures
        x == 0,
{
    let lo = x as u64;
    let hi = (x >> 64u128) as u64;
    assert forall|i: u64| i < 64 implies !#[trigger] bit(lo, i) by {
        lemma_word_bits(x, i, 0, 0, 0, 0, 0);
        assert(!wbit(x, i as int));
    }
    assert forall|i: u64| i < 64 implies !#[trigger] bit(hi, i) by {
        lemma_word_bits(x, i, 0, 0, 0, 0, 0);
        assert(!wbit(x, i + 64));
    }
    lemma_no_bits_zero(lo);
    lemma_no_bits_zero(hi);
    lemma_word_bits(x, 0, 0, 0, 0, 0, 0);
}

/// Two words that agree on every bit below `r` agree below `r` once masked,
/// and are equal when `r` is 128.
proof fn lemma_words_agree(a: u128, b: u128, r: u128)
    requires
        r <= 128,
        forall|q: int| 0 <= q < r ==> #[trigger] wbit(a, q) == wbit(b, q),
    ensures
        r < 128 ==> a & ((1u128 << r) - 1) as u128 == b & ((1u128 << r) - 1) as u128,
        r == 128 ==> a == b,
{
    if r == 128 {
        assert forall|q: int| 0 <= q < 128 implies !#[trigger] wbit(a ^ b, q) by {
            lemma_word_bits(0, 0, a, b, q as u128, 0, 0);
            assert(wbit(a, q) == wbit(b, q));
        }
        lemma_word_zero(a ^ b);
        lemma_word_bits(0, 0, a, b, 0, 0, 0);
    } else {
        let m = ((1u128 << r) - 1) as u128;
        assert forall|q: int| 0 <= q < 128 implies !#[trigger] wbit((a & m) ^ (b & m), q) by {
            let k = q as u128;
            lemma_word_bits(0, 0, a, b, k, r, m);
            if k < r {
                assert(wbit(a, q) == wbit(b, q));
            }
        }
        lemma_word_zero((a & m) ^ (b & m));
        lemma_word_bits(0, 0, a, b, 0, r, m);
    }
}

/// Masked words that are equal agree on every bit below `r`.
proof fn lemma_masked_agree(a: u128, b: u128, r: u128, q: int)
    requires
        r < 128,
        0 <= q < r,
        a & ((1u128 << r) - 1) as u128 == b & ((1u128 << r) - 1) as u128,
    ensures
        wbit(a, q) == wbit(b, q),
{
    lemma_word_bits(0, 0, a, b, q as u128, r, ((1u128 << r) - 1) as u128);
}

/// The text of a bit slice: `BitSlice(`, a `1` or `0` per bit, `)`.
pub open spec fn bits_text(bits: Seq<bool>) -> Seq<char> {
    "BitSlice("@ + Seq::new(bits.len(), |i: int| if bits[i] { '1' } else { '0' }) + ")"@
}

/// A slice of `bits` bits.
pub struct BitSlice {
    buf: Vec<u128>,
    bits: usize,
}

impl BitSlice {
    /// All stored bits, including the padding after the last one.
    pub closed spec fn raw(&self) -> Seq<bool> {
        raw_bits(self.buf@)
    }

    /// Number of 128-bit words stored.
    pub closed spec fn word_count(&self) -> nat {
        self.buf@.len()
    }

    pub closed spec fn len(&self) -> nat {
        self.bits as nat
    }

    /// The bits of the slice.
    pub open spec fn view(&self) -> Seq<bool> {
        self.raw().take(self.len() as int)
    }

    pub closed spec fn wf(&self) -> bool {
        self.buf@.len() == (self.bits + 127) / 128
    }

    /// A slice of `bits` bits, all clear.
    pub fn uninit(bits: usize) -> (b: Self)
        ensures
            b.wf(),
            b.len() == bits,
            forall|i: int| 0 <= i < b.raw().len() ==> !#[trigger] b.raw()[i],
    {
        let words = bits / 128 + if bits % 128 != 0 { 1 } else { 0 };
        let mut buf: Vec<u128> = Vec::with_capacity(words);
        let mut i: usize = 0;
        while i < words
            invariant
                i <= words,
                buf@.len() == i,
                forall|j: int| 0 <= j < i ==> #[trigger] buf@[j] == 0u128,
            decreases words - i,
        {
            buf.push(0);
            i += 1;
        }
        let b = BitSlice { buf, bits };
        proof {
            assert forall|p: int| 0 <= p < b.raw().len() implies !#[trigger] b.raw()[p] by {
                let q = (p % 128) as u128;
                lemma_wbit_single(0, 0, q);
            }
        }
        b
    }

    pub fn bits(&self) -> (r: usize)
        ensures
            r == self.len(),
    {
        self.bits
    }

    pub fn get(&self, index: usize) -> (r: bool)
        requires
            self.wf(),
            index < self.len(),
        ensures
            r == self.raw()[index as int],
    {
        let w = self.buf[index / 128];
        let k = (index % 128) as u128;
        proof {
            lemma_wbit_single(w, k, k);
        }
        (w & (1u128 << k)) != 0
    }

    /// Sets bit `index` when `value` is true; when `value` is false the bit
    /// is left as it is.
    pub fn set(&mut self, index: usize, value: bool)
        requires
            old(self).wf(),
            index < old(self).len(),
        ensures
            final(self).wf(),
            final(self).len() == old(self).len(),
            final(self).raw() == if value { old(self).raw().update(index as int, true) } else { old(self).raw() },
    {
        if self.get(index) != value {
            let w = self.buf[index / 128];
            let k = (index % 128) as u128;
            let v: u128 = if value { 1 } else { 0 };
            let nw = w ^ (v << k);
            self.buf.set(index / 128, nw);
            proof {
                if value {
                    assert forall|p: int| 0 <= p < self.raw().len() implies #[trigger] self.raw()[p] == old(self).raw().update(index as int, true)[p] by {
                        if p / 128 == index / 128 {
                            lemma_wbit_single(w, k, (p % 128) as u128);
                            assert(1u128 << k == 1u128 << k);
                        }
                    }
                    assert(self.raw() =~= old(self).raw().update(index as int, true));
                } else {
                    lemma_wbit_single(w, k, k);
                    assert(self.buf@ =~= old(self).buf@);
                }
            }
        }
    }

    /// Swaps bits `m` and `n` through `set`: each ends up set if either was.
    fn switch_bits(&mut self, m: usize, n: usize)
        requires
            old(self).wf(),
            m < old(self).len(),
            n < old(self).len(),
        ensures
            final(self).wf(),
            final(self).len() == old(self).len(),
            final(self).raw() == old(self).raw().update(m as int, old(self).raw()[m as int] || old(self).raw()[n as int]).update(
                n as int,
                old(self).raw()[n as int] || old(self).raw()[m as int],
            ),
    {
        let mb = self.get(m);
        let nb = self.get(n);
        self.set(m, nb);
        self.set(n, mb);
        proof {
            assert(self.raw() =~= old(self).raw().update(m as int, old(self).raw()[m as int] || old(self).raw()[n as int]).update(
                n as int,
                old(self).raw()[n as int] || old(self).raw()[m as int],
            ));
        }
    }

    /// Rewrites words `b0 ..= b0 + k` as `final_word` says.
    fn turn_words(&mut self, b0: usize, k: usize, offset: u32)
        requires
            old(self).wf(),
            k >= 2,
            b0 + k < old(self).buf@.len(),
            offset < 128,
        ensures
            final(self).wf(),
            final(self).len() == old(self).len(),
            final(self).buf@.len() == old(self).buf@.len(),
            forall|x: int| 0 <= x <= k ==> #[trigger] final(self).buf@[b0 + x] == final_word(old(self).buf@, b0 as int, k as int, offset, x),
            forall|y: int| 0 <= y < old(self).buf@.len() && !(b0 <= y <= b0 + k) ==> #[trigger] final(self).buf@[y] == old(self).buf@[y],
            offset != 0 ==> forall|x: int| 0 <= x <= k ==> rr_facts(#[trigger] old(self).buf@[b0 + x], offset),
    {
        let ghost w = self.buf@;
        let ghost kk = k as int;
        let ghost bb = b0 as int;
        let oo = offset as u128;
        proof {
            lemma_wbit_single(0, oo, 0);
        }
        let mask1: u128 = (1u128 << oo) - 1;
        let mask2: u128 = 0 ^ mask1;
        proof {
            lemma_wbit_single(mask1, 0, 0);
        }
        let mut p1 = b0;
        let mut p2 = b0 + k;
        let mut t1 = self.buf[p1];
        let mut t2 = self.buf[p2];
        if offset != 0 {
            t2 = turn(t2, offset);
            let v = (self.buf[p1] & mask2) | (t2 & mask1);
            self.buf.set(p1, v);
            proof {
                lemma_masked_or(w[bb], rr(w[bb + kk], offset), offset, 0);
            }
        }
        loop
            invariant_except_break
                p1 < p2,
                p1 >= b0,
                p2 <= b0 + k,
                p2 - b0 == k - (p1 - b0),
                t1 == w[p1 as int],
                forall|x: int| 0 <= x < p1 - b0 ==> #[trigger] self.buf@[bb + x] == final_word(w, bb, kk, offset, x),
                self.buf@[p1 as int] == if p1 == b0 {
                    if offset != 0 { ((w[bb] | rr(w[bb + kk], offset)) & mask_of(offset)) as u128 } else { w[bb] }
                } else {
                    rr(w[bb + kk - (p1 - bb)], offset)
                },
                forall|y: int| p1 < y < p2 ==> #[trigger] self.buf@[y] == w[y],
                self.buf@[p2 as int] == if p2 == b0 + k { w[bb + kk] } else { rr(w[p1 - 1], offset) },
                forall|x: int| p2 - b0 < x <= k ==> #[trigger] self.buf@[bb + x] == final_word(w, bb, kk, offset, x),
                offset != 0 ==> forall|x: int| 0 <= x < p1 - b0 ==> rr_facts(#[trigger] w[bb + x], offset),
                offset != 0 ==> forall|x: int| p2 - b0 <= x <= k ==> rr_facts(#[trigger] w[bb + x], offset),
            invariant
                kk == k,
                bb == b0,
                self.wf(),
                self.len() == old(self).len(),
                self.buf@.len() == w.len(),
                w == old(self).buf@,
                b0 + k < w.len(),
                k >= 2,
                offset < 128,
                mask1 == mask_of(offset),
                mask2 == mask1,
                forall|y: int| 0 <= y < w.len() && !(b0 <= y <= b0 + k) ==> #[trigger] self.buf@[y] == w[y],
            ensures
                forall|x: int| 0 <= x <= k ==> #[trigger] self.buf@[bb + x] == final_word(w, bb, kk, offset, x),
                offset != 0 ==> forall|x: int| 0 <= x <= k ==> rr_facts(#[trigger] w[bb + x], offset),
            decreases p2 - p1,
        {
            let ghost pre = self.buf@;
            let ghost j1 = p1 - b0;
            let ghost p2s = p2;
            assert(p2 - b0 == k - (p1 - b0));
            assert(p2s - bb == kk - j1);
            t1 = turn(t1, offset);
            let v = (self.buf[p2] & mask2) | (t1 & mask1);
            proof {
                lemma_masked_or(pre[p2 as int], t1, offset, 0);
                lemma_masked_zero(offset);
            }
            self.buf.set(p2, v);
            p2 -= 1;
            t2 = self.buf[p2];
            if p2 == p1 {
                let v = (self.buf[p2] & mask1) | (t1 & mask2);
                proof {
                    lemma_masked_or(pre[p1 as int], t1, offset, 0);
                }
                self.buf.set(p2, v);
                proof {
                    assert(p1 - b0 == j1);
                    assert(p2 + 1 == p2s);
                    assert(p2 == p1);
                    assert(j1 >= 1);
                    assert(kk - j1 - 1 == j1);
                    assert(pre[bb + j1] == rr(w[bb + kk - j1], offset));
                    assert(pre[bb + j1 + 1] == rr(w[bb + j1 - 1], offset));
                    assert forall|x: int| 0 <= x <= k implies #[trigger] self.buf@[bb + x] == final_word(w, bb, kk, offset, x) by {
                        if x < j1 {
                            assert(pre[bb + x] == final_word(w, bb, kk, offset, x));
                        } else if x == j1 {
                            assert(self.buf@[bb + x] == ((rr(w[bb + kk - j1], offset) | rr(w[bb + j1], offset)) & mask_of(offset)));
                        } else if x == j1 + 1 {
                            lemma_or_comm_masked(rr(w[bb + j1 - 1], offset), rr(w[bb + j1], offset), offset);
                            assert(self.buf@[bb + x] == ((rr(w[bb + j1 - 1], offset) | rr(w[bb + j1], offset)) & mask_of(offset)));
                        } else {
                            assert(pre[bb + x] == final_word(w, bb, kk, offset, x));
                        }
                    }
                }
                break;
            }
            self.buf.set(p2, t1);
            t2 = turn(t2, offset);
            let v = (self.buf[p1] & mask1) | (t2 & mask2);
            proof {
                lemma_masked_or(pre[p1 as int], t2, offset, 0);
                if j1 == 0 {
                    lemma_masked_three(w[bb], rr(w[bb + kk], offset), t2, offset);
                }
            }
            self.buf.set(p1, v);
            p1 += 1;
            t1 = self.buf[p1];
            if p2 == p1 {
                let v = (self.buf[p1] & mask2) | (t2 & mask1);
                proof {
                    lemma_masked_or(rr(w[bb + j1], offset), t2, offset, 0);
                }
                self.buf.set(p1, v);
                proof {
                    assert(kk == 2 * j1 + 2);
                    assert forall|x: int| 0 <= x <= k implies #[trigger] self.buf@[bb + x] == final_word(w, bb, kk, offset, x) by {
                        if x < j1 {
                            assert(pre[bb + x] == final_word(w, bb, kk, offset, x));
                        } else if x == j1 {
                        } else if x == j1 + 1 {
                            lemma_or_comm_masked(rr(w[bb + j1], offset), rr(w[bb + j1 + 1], offset), offset);
                            assert(self.buf@[bb + x] == ((rr(w[bb + j1], offset) | rr(w[bb + j1 + 1], offset)) & mask_of(offset)));
                        } else if x == j1 + 2 {
                            if j1 == 0 {
                                assert(pre[bb + kk] == w[bb + kk]);
                            } else {
                                assert(pre[bb + j1 + 2] == rr(w[bb + j1 - 1], offset));
                                lemma_or_comm_masked(rr(w[bb + j1 - 1], offset), rr(w[bb + j1], offset), offset);
                            }
                        } else {
                            assert(pre[bb + x] == final_word(w, bb, kk, offset, x));
                        }
                    }
                }
                break;
            }
            self.buf.set(p1, t2);
            proof {
                assert forall|x: int| p2 - b0 < x <= k implies #[trigger] self.buf@[bb + x] == final_word(w, bb, kk, offset, x) by {
                    if x == kk - j1 {
                        if j1 == 0 {
                            assert(pre[bb + kk] == w[bb + kk]);
                        } else {
                            assert(pre[p2s as int] == rr(w[bb + j1 - 1], offset));
                            lemma_or_comm_masked(rr(w[bb + j1 - 1], offset), rr(w[bb + j1], offset), offset);
                        }
                    } else {
                        assert(pre[bb + x] == final_word(w, bb, kk, offset, x));
                    }
                }
            }
        }
    }

    /// Reverses bits `from ..= to` by swaps through `set`, so each swapped
    /// pair ends up set if either bit was. Ranges of 512 bits or more are
    /// swapped bit by bit only until `from` is a multiple of 128; the rest
    /// is rewritten word by word, as `reverse_range_spec` states.
    pub fn reverse_range(&mut self, from: usize, to: usize)
        requires
            old(self).wf(),
            from <= to < old(self).len(),
            range_ok(from as int, to as int, old(self).word_count() as int),
        ensures
            final(self).wf(),
            final(self).len() == old(self).len(),
            final(self).raw() == reverse_range_spec(old(self).raw(), from as int, to as int),
    {
        let ghost r0 = self.raw();
        let ghost f0 = from as int;
        let ghost t0 = to as int;
        let mut from = from;
        let mut to = to;
        if to - from < 512 {
            while from < to
                invariant
                    self.wf(),
                    self.len() == old(self).len(),
                    f0 <= from,
                    to <= t0,
                    t0 < self.len(),
                    from - f0 == t0 - to,
                    from <= to + 1,
                    t0 - f0 < 512,
                    self.raw() == or_pairs(r0, f0, t0, from - f0),
                decreases to + 1 - from,
            {
                self.switch_bits(from, to);
                proof {
                    assert(self.raw() =~= or_pairs(r0, f0, t0, from + 1 - f0));
                }
                from += 1;
                to -= 1;
            }
            proof {
                assert(from - f0 == (t0 - f0 + 1) / 2);
            }
            return;
        }
        while from % 128 != 0
            invariant
                self.wf(),
                self.len() == old(self).len(),
                f0 <= from,
                to <= t0,
                t0 < self.len(),
                from - f0 == t0 - to,
                t0 - f0 >= 512,
                from - f0 <= align_count(f0),
                self.raw() == or_pairs(r0, f0, t0, from - f0),
            decreases align_count(f0) - (from - f0),
        {
            proof {
                lemma_align(f0, from - f0);
                assert(from - f0 < align_count(f0));
            }
            self.switch_bits(from, to);
            proof {
                assert(self.raw() =~= or_pairs(r0, f0, t0, from + 1 - f0));
            }
            from += 1;
            to -= 1;
        }
        let ghost w = self.buf@;
        let b0 = from / 128;
        let n = to - from + 1;
        let k = n / 128;
        let offset = (n % 128) as u32;
        proof {
            lemma_align(f0, from - f0);
            assert(from - f0 == align_count(f0));
            lemma_split(from as int);
            lemma_split(n as int);
            assert(k >= 2);
        }
        self.turn_words(b0, k, offset);
        proof {
            lemma_big_step_bits(w, self.buf@, b0 as int, k as int, offset);
        }
    }

    /// Rotates bits `offset .. offset + len` left by `n`, by three reversals.
    pub fn rotate_left(&mut self, offset: usize, len: usize, n: usize)
        requires
            old(self).wf(),
            offset + len <= old(self).len(),
            len > 0,
            n % len != 0 ==> {
                &&& range_ok(offset as int, offset + len - 1, old(self).word_count() as int)
                &&& range_ok(offset as int, offset + n % len - 1, old(self).word_count() as int)
                &&& range_ok(offset + n % len, offset + len - 1, old(self).word_count() as int)
            },
        ensures
            final(self).wf(),
            final(self).len() == old(self).len(),
            final(self).raw() == if n % len == 0 {
                old(self).raw()
            } else {
                let s = n % len;
                let r1 = reverse_range_spec(old(self).raw(), offset as int, offset + len - 1);
                let r2 = reverse_range_spec(r1, offset as int, offset + s - 1);
                reverse_range_spec(r2, offset + s, offset + len - 1)
            },
    {
        let n = n % len;
        if n == 0 {
            return;
        }
        self.reverse_range(offset, offset + len - 1);
        self.reverse_range(offset, offset + n - 1);
        self.reverse_range(offset + n, offset + len - 1);
    }

    /// A slice of `bits` bits read from `init`: bit `i` is bit `i % 8` of
    /// byte `i / 8`.
    pub fn new(bits: usize, init: &[u8]) -> (b: Self)
        requires
            init@.len() >= (bits + 7) / 8,
        ensures
            b.wf(),
            b.len() == bits,
            forall|i: int| 0 <= i < bits ==> #[trigger] b.raw()[i] == (((init@[i / 8] >> ((i % 8) as u8)) & 1u8) == 1u8),
    {
        let mut b = Self::uninit(bits);
        let mut i: usize = 0;
        while i < bits
            invariant
                b.wf(),
                b.len() == bits,
                i <= bits,
                init@.len() >= (bits + 7) / 8,
                forall|j: int| 0 <= j < i ==> #[trigger] b.raw()[j] == (((init@[j / 8] >> ((j % 8) as u8)) & 1u8) == 1u8),
                forall|j: int| i <= j < b.raw().len() ==> !#[trigger] b.raw()[j],
            decreases bits - i,
        {
            let byte = init[i / 8];
            let v = ((byte >> ((i % 8) as u8)) & 1u8) == 1u8;
            b.set(i, v);
            i += 1;
        }
        b
    }

    /// A slice of `bits` bits where bit `i` is `init(i)`.
    pub fn from_fn<F: Fn(usize) -> bool>(bits: usize, init: F) -> (b: Self)
        requires
            forall|i: usize| i < bits ==> #[trigger] call_requires(init, (i,)),
        ensures
            b.wf(),
            b.len() == bits,
            forall|i: usize| i < bits ==> #[trigger] call_ensures(init, (i,), b.raw()[i as int]),
    {
        let mut b = Self::uninit(bits);
        let mut i: usize = 0;
        while i < bits
            invariant
                b.wf(),
                b.len() == bits,
                i <= bits,
                forall|j: usize| j < bits ==> #[trigger] call_requires(init, (j,)),
                forall|j: usize| j < i ==> #[trigger] call_ensures(init, (j,), b.raw()[j as int]),
                forall|j: int| i <= j < b.raw().len() ==> !#[trigger] b.raw()[j],
            decreases bits - i,
        {
            let v = init(i);
            b.set(i, v);
            i += 1;
        }
        b
    }

    /// Whether the two slices have the same length and the same bits. Whole
    /// words are compared, then the bits of the last, partial word.
    pub fn equals(&self, other: &Self) -> (r: bool)
        requires
            self.wf(),
            other.wf(),
        ensures
            r == (self@ == other@),
    {
        if self.bits != other.bits {
            proof {
                assert(self@.len() != other@.len());
            }
            return false;
        }
        let full = self.bits / 128;
        let mut i: usize = 0;
        while i < full
            invariant
                self.wf(),
                other.wf(),
                self.bits == other.bits,
                full == self.bits / 128,
                i <= full,
                forall|p: int| 0 <= p < i * 128 ==> #[trigger] self.raw()[p] == other.raw()[p],
            decreases full - i,
        {
            let a = self.buf[i];
            let b = other.buf[i];
            if a != b {
                proof {
                    if forall|q: int| 0 <= q < 128 ==> #[trigger] wbit(a, q) == wbit(b, q) {
                        lemma_words_agree(a, b, 128);
                    }
                    let q = choose|q: int| 0 <= q < 128 && wbit(a, q) != wbit(b, q);
                    let p = i * 128 + q;
                    assert(p / 128 == i && p % 128 == q) by (nonlinear_arith)
                        requires p == i * 128 + q, 0 <= q < 128;
                    assert(self.raw()[p] != other.raw()[p]);
                    assert(self@[p] != other@[p]);
                }
                return false;
            }
            proof {
                assert forall|p: int| 0 <= p < (i + 1) * 128 implies #[trigger] self.raw()[p] == other.raw()[p] by {
                    if p >= i * 128 {
                        assert(p / 128 == i) by (nonlinear_arith)
                            requires i * 128 <= p < (i + 1) * 128;
                    }
                }
            }
            i += 1;
        }
        let rest = (self.bits % 128) as u128;
        if rest != 0 {
            let a = self.buf[full];
            let b = other.buf[full];
            proof {
                lemma_wbit_single(0, rest, 0);
            }
            let mask: u128 = (1u128 << rest) - 1;
            if a & mask != b & mask {
                proof {
                    if forall|q: int| 0 <= q < rest ==> #[trigger] wbit(a, q) == wbit(b, q) {
                        lemma_words_agree(a, b, rest);
                    }
                    let q = choose|q: int| 0 <= q < rest && wbit(a, q) != wbit(b, q);
                    let p = full * 128 + q;
                    assert(p / 128 == full && p % 128 == q) by (nonlinear_arith)
                        requires p == full * 128 + q, 0 <= q < 128;
                    assert(self.raw()[p] != other.raw()[p]);
                    assert(self@[p] != other@[p]);
                }
                return false;
            }
            proof {
                assert forall|p: int| 0 <= p < self.bits implies #[trigger] self.raw()[p] == other.raw()[p] by {
                    if p >= full * 128 {
                        assert(p / 128 == full && p % 128 < rest) by (nonlinear_arith)
                            requires full * 128 <= p < self.bits, full == self.bits / 128, rest == self.bits % 128;
                        lemma_masked_agree(a, b, rest, p % 128);
                    }
                }
            }
        }
        proof {
            assert(self@ =~= other@);
        }
        true
    }

    /// The slice as text: `BitSlice(`, then `1` or `0` for each bit, then `)`.
    pub fn render(&self) -> (r: String)
        requires
            self.wf(),
        ensures
            r@ == bits_text(self@),
    {
        let mut s = String::from_str("BitSlice(");
        let ghost head = s@;
        let mut i: usize = 0;
        while i < self.bits
            invariant
                self.wf(),
                i <= self.bits,
                s@ == head + Seq::new(i as nat, |j: int| if self@[j] { '1' } else { '0' }),
            decreases self.bits - i,
        {
            if self.get(i) {
                s.append("1");
            } else {
                s.append("0");
            }
            proof {
                reveal_strlit("1");
                reveal_strlit("0");
                assert(s@ =~= head + Seq::new((i + 1) as nat, |j: int| if self@[j] { '1' } else { '0' }));
            }
            i += 1;
        }
        s.append(")");
        proof {
            reveal_strlit("BitSlice(");
            reveal_strlit(")");
            assert(s@ =~= bits_text(self@));
        }
        s
    }

    /// Whether `reverse_range(from, to)` stays within the stored words: a
    /// long range whose length after aligning `from` is a whole number of
    /// words would touch the word after its end.
    fn range_fits(&self, from: usize, to: usize) -> (r: bool)
        requires
            from <= to < usize::MAX,
        ensures
            r == range_ok(from as int, to as int, self.word_count() as int),
    {
        if to - from < 512 {
            return true;
        }
        let a = (128 - from % 128) % 128;
        assert(a < 128);
        let n = to - a - (from + a) + 1;
        n % 128 != 0 || (to - a + 1) / 128 < self.buf.len()
    }

    /// Rotates like `rotate_left` when the rotation stays within the slice
    /// and within the stored words; otherwise leaves the slice as it is and
    /// returns false.
    pub fn checked_rotate_left(&mut self, offset: usize, len: usize, n: usize) -> (r: bool)
        requires
            old(self).wf(),
        ensures
            final(self).wf(),
            final(self).len() == old(self).len(),
            r == (len > 0 && offset + len <= old(self).len() && (n % len != 0 ==> {
                &&& range_ok(offset as int, offset + len - 1, old(self).word_count() as int)
                &&& range_ok(offset as int, offset + n % len - 1, old(self).word_count() as int)
                &&& range_ok(offset + n % len, offset + len - 1, old(self).word_count() as int)
            })),
            r ==> final(self).raw() == if n % len == 0 {
                old(self).raw()
            } else {
                let s = n % len;
                let r1 = reverse_range_spec(old(self).raw(), offset as int, offset + len - 1);
                let r2 = reverse_range_spec(r1, offset as int, offset + s - 1);
                reverse_range_spec(r2, offset + s, offset + len - 1)
            },
            !r ==> final(self).raw() == old(self).raw(),
    {
        if len == 0 || offset > self.bits || len > self.bits - offset {
            return false;
        }
        let s = n % len;
        if s != 0 {
            if !self.range_fits(offset, offset + len - 1) || !self.range_fits(offset, offset + s - 1)
                || !self.range_fits(offset + s, offset + len - 1) {
                return false;
            }
        }
        self.rotate_left(offset, len, n);
        true
    }
}

} // verus!
