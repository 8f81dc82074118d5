//! Chunked merge sort: sort chunks of the input separately, then merge
//! neighbouring runs pairwise, the left half of the runs and the right half
//! first, then the two halves.

use vstd::prelude::*;

verus! {

broadcast use vstd::seq_lib::group_to_multiset_ensures, vstd::seq_lib::to_multiset_build, vstd::seq_lib::lemma_multiset_commutative;

/// The items are in ascending order.
pub open spec fn sorted(s: Seq<u64>) -> bool {
    forall|i: int, j: int| 0 <= i <= j < s.len() ==> s[i] <= s[j]
}

/// `<[u64]>::sort`: sorts the slice.
#[verifier::external_body]
fn sort_range(s: &mut [u64], start: usize, end: usize)
    requires
        start <= end <= old(s)@.len(),
    ensures
        final(s)@.len() == old(s)@.len(),
        sorted(final(s)@.subrange(start as int, end as int)),
        final(s)@.subrange(start as int, end as int).to_multiset() == old(s)@.subrange(start as int, end as int).to_multiset(),
        final(s)@.subrange(0, start as int) == old(s)@.subrange(0, start as int),
        final(s)@.subrange(end as int, old(s)@.len() as int) == old(s)@.subrange(end as int, old(s)@.len() as int),
{
    s[start..end].sort()
}

/// Merges the sorted runs `src[..chunk]` and `src[chunk..]` through `buf`.
pub fn merge(src: &mut [u64], buf: &mut [u64], chunk: usize)
    requires
        chunk <= old(src)@.len() <= old(buf)@.len(),
        sorted(old(src)@.subrange(0, chunk as int)),
        sorted(old(src)@.subrange(chunk as int, old(src)@.len() as int)),
    ensures
        final(src)@.len() == old(src)@.len(),
        final(buf)@.len() == old(buf)@.len(),
        sorted(final(src)@),
        final(src)@.to_multiset() == old(src)@.to_multiset(),
        final(buf)@.subrange(old(src)@.len() as int, old(buf)@.len() as int)
            == old(buf)@.subrange(old(src)@.len() as int, old(buf)@.len() as int),
{
    let len = src.len();
    let ghost s0 = src@;
    let ghost lb = buf@.len();
    let ghost b0 = buf@;
    let mut b: usize = 0;
    let mut p1: usize = 0;
    let mut p2: usize = chunk;
    while p1 < chunk && p2 < len
        invariant
            src@ == s0,
            len == s0.len(),
            chunk <= len <= buf@.len(),
            sorted(s0.subrange(0, chunk as int)),
            sorted(s0.subrange(chunk as int, len as int)),
            p1 <= chunk <= p2 <= len,
            b == p1 + (p2 - chunk),
            sorted(buf@.subrange(0, b as int)),
            buf@.subrange(0, b as int).to_multiset() == s0.subrange(0, p1 as int).to_multiset().add(
                s0.subrange(chunk as int, p2 as int).to_multiset(),
            ),
            forall|i: int| 0 <= i < b && p1 < chunk ==> buf@[i] <= s0[p1 as int],
            forall|i: int| 0 <= i < b && p2 < len ==> buf@[i] <= s0[p2 as int],
            buf@.len() == lb,
            forall|k: int| len <= k < lb ==> buf@[k] == b0[k],
        decreases len - b,
    {
        let ghost pre = buf@;
        if src[p1] < src[p2] {
            buf[b] = src[p1];
            p1 += 1;
            proof {
                assert(s0.subrange(0, p1 as int) == s0.subrange(0, p1 - 1).push(s0[p1 - 1]));
            }
        } else {
            buf[b] = src[p2];
            p2 += 1;
            proof {
                assert(s0.subrange(chunk as int, p2 as int) == s0.subrange(chunk as int, p2 - 1).push(s0[p2 - 1]));
            }
        }
        proof {
            assert(buf@.subrange(0, b + 1) == pre.subrange(0, b as int).push(buf@[b as int]));
            assert(forall|i: int| 0 <= i < chunk ==> s0[i] == s0.subrange(0, chunk as int)[i]);
            assert(forall|i: int| chunk <= i < len ==> s0[i] == s0.subrange(chunk as int, len as int)[i - chunk]);
        }
        b += 1;
    }
    while p1 < chunk
        invariant
            src@ == s0,
            len == s0.len(),
            chunk <= len <= buf@.len(),
            sorted(s0.subrange(0, chunk as int)),
            sorted(s0.subrange(chunk as int, len as int)),
            p1 <= chunk <= p2 <= len,
            p1 < chunk ==> p2 == len,
            b == p1 + (p2 - chunk),
            sorted(buf@.subrange(0, b as int)),
            buf@.subrange(0, b as int).to_multiset() == s0.subrange(0, p1 as int).to_multiset().add(
                s0.subrange(chunk as int, p2 as int).to_multiset(),
            ),
            forall|i: int| 0 <= i < b && p1 < chunk ==> buf@[i] <= s0[p1 as int],
            forall|i: int| 0 <= i < b && p2 < len ==> buf@[i] <= s0[p2 as int],
            buf@.len() == lb,
            forall|k: int| len <= k < lb ==> buf@[k] == b0[k],
        decreases chunk - p1,
    {
        let ghost pre = buf@;
        buf[b] = src[p1];
        p1 += 1;
        proof {
            assert(s0.subrange(0, p1 as int) == s0.subrange(0, p1 - 1).push(s0[p1 - 1]));
            assert(buf@.subrange(0, b + 1) == pre.subrange(0, b as int).push(buf@[b as int]));
            assert(forall|i: int| 0 <= i < chunk ==> s0[i] == s0.subrange(0, chunk as int)[i]);
        }
        b += 1;
    }
    while p2 < len
        invariant
            src@ == s0,
            len == s0.len(),
            chunk <= len <= buf@.len(),
            sorted(s0.subrange(chunk as int, len as int)),
            p1 == chunk,
            chunk <= p2 <= len,
            b == p1 + (p2 - chunk),
            sorted(buf@.subrange(0, b as int)),
            buf@.subrange(0, b as int).to_multiset() == s0.subrange(0, p1 as int).to_multiset().add(
                s0.subrange(chunk as int, p2 as int).to_multiset(),
            ),
            forall|i: int| 0 <= i < b && p2 < len ==> buf@[i] <= s0[p2 as int],
            buf@.len() == lb,
            forall|k: int| len <= k < lb ==> buf@[k] == b0[k],
        decreases len - p2,
    {
        let ghost pre = buf@;
        buf[b] = src[p2];
        p2 += 1;
        proof {
            assert(s0.subrange(chunk as int, p2 as int) == s0.subrange(chunk as int, p2 - 1).push(s0[p2 - 1]));
            assert(buf@.subrange(0, b + 1) == pre.subrange(0, b as int).push(buf@[b as int]));
            assert(forall|i: int| chunk <= i < len ==> s0[i] == s0.subrange(chunk as int, len as int)[i - chunk]);
        }
        b += 1;
    }
    proof {
        assert(s0 == s0.subrange(0, chunk as int) + s0.subrange(chunk as int, len as int));
    }
    let mut i: usize = 0;
    while i < len
        invariant
            len == s0.len(),
            len == src@.len(),
            len <= buf@.len(),
            i <= len,
            forall|j: int| 0 <= j < i ==> src@[j] == buf@[j],
            buf@.len() == lb,
            forall|k: int| len <= k < lb ==> buf@[k] == b0[k],
        decreases len - i,
    {
        src[i] = buf[i];
        i += 1;
    }
    proof {
        assert(src@ == buf@.subrange(0, len as int));
        assert(buf@.subrange(len as int, lb as int) =~= b0.subrange(len as int, lb as int));
    }
}

/// Start of run `i`: the total length of the runs before it.
pub open spec fn run_start(lens: Seq<usize>, i: int) -> nat
    decreases i,
{
    if i <= 0 || lens.len() == 0 {
        0
    } else {
        run_start(lens, i - 1) + (lens[i - 1] as nat)
    }
}

/// Run `i` of `s`, cut by the run lengths `lens`, is sorted.
pub open spec fn run_is_sorted(s: Seq<u64>, lens: Seq<usize>, i: int) -> bool {
    sorted(s.subrange(run_start(lens, i) as int, run_start(lens, i + 1) as int))
}

/// `s` is made of runs of the given lengths, each sorted.
pub open spec fn runs_sorted(s: Seq<u64>, lens: Seq<usize>) -> bool {
    &&& s.len() == run_start(lens, lens.len() as int)
    &&& forall|i: int| 0 <= i < lens.len() ==> #[trigger] run_is_sorted(s, lens, i)
}

proof fn lemma_run_start_mono(lens: Seq<usize>, i: int, j: int)
    requires
        0 <= i <= j <= lens.len(),
    ensures
        run_start(lens, i) <= run_start(lens, j),
    decreases j,
{
    if j > i {
        lemma_run_start_mono(lens, i, j - 1);
    }
}

proof fn lemma_run_start_prefix(lens: Seq<usize>, h: int, i: int)
    requires
        0 <= i <= h <= lens.len(),
    ensures
        run_start(lens.subrange(0, h), i) == run_start(lens, i),
    decreases i,
{
    if i > 0 {
        lemma_run_start_prefix(lens, h, i - 1);
    }
}

proof fn lemma_run_start_suffix(lens: Seq<usize>, h: int, i: int)
    requires
        0 <= h <= lens.len(),
        0 <= i <= lens.len() - h,
    ensures
        run_start(lens.subrange(h, lens.len() as int), i) + run_start(lens, h) == run_start(lens, h + i),
    decreases i,
{
    if i > 0 {
        lemma_run_start_suffix(lens, h, i - 1);
    }
}

proof fn lemma_run_start_push(lens: Seq<usize>, l: usize, i: int)
    requires
        0 <= i <= lens.len(),
    ensures
        run_start(lens.push(l), i) == run_start(lens, i),
    decreases i,
{
    if i > 0 {
        lemma_run_start_push(lens, l, i - 1);
    }
}

/// The runs before `h` and from `h` on are each made of sorted runs.
proof fn lemma_runs_split(s: Seq<u64>, lens: Seq<usize>, h: int)
    requires
        runs_sorted(s, lens),
        0 <= h <= lens.len(),
    ensures
        runs_sorted(s.subrange(0, run_start(lens, h) as int), lens.subrange(0, h)),
        runs_sorted(s.subrange(run_start(lens, h) as int, s.len() as int), lens.subrange(h, lens.len() as int)),
{
    let m = run_start(lens, h) as int;
    lemma_run_start_mono(lens, h, lens.len() as int);
    let l1 = lens.subrange(0, h);
    let l2 = lens.subrange(h, lens.len() as int);
    lemma_run_start_prefix(lens, h, h);
    assert forall|i: int| 0 <= i < l1.len() implies #[trigger] run_is_sorted(s.subrange(0, m), l1, i) by {
        lemma_run_start_prefix(lens, h, i);
        lemma_run_start_prefix(lens, h, i + 1);
        lemma_run_start_mono(lens, i, i + 1);
        lemma_run_start_mono(lens, i + 1, h);
        assert(run_is_sorted(s, lens, i));
        assert(s.subrange(0, m).subrange(run_start(l1, i) as int, run_start(l1, i + 1) as int) == s.subrange(run_start(lens, i) as int, run_start(lens, i + 1) as int));
    }
    lemma_run_start_suffix(lens, h, l2.len() as int);
    assert forall|i: int| 0 <= i < l2.len() implies #[trigger] run_is_sorted(s.subrange(m, s.len() as int), l2, i) by {
        lemma_run_start_suffix(lens, h, i);
        lemma_run_start_suffix(lens, h, i + 1);
        lemma_run_start_mono(lens, h + i, h + i + 1);
        lemma_run_start_mono(lens, h + i + 1, lens.len() as int);
        assert(run_is_sorted(s, lens, h + i));
        assert(s.subrange(m, s.len() as int).subrange(run_start(l2, i) as int, run_start(l2, i + 1) as int) == s.subrange(run_start(lens, h + i) as int, run_start(lens, h + i + 1) as int));
    }
}

/// Merges the sorted runs of `src`, whose lengths are `lens`, into one
/// sorted sequence: the left half of the runs and the right half first,
/// then the two.
pub fn merge_tree(src: &mut [u64], buf: &mut [u64], lens: &[usize])
    requires
        lens@.len() >= 1,
        runs_sorted(old(src)@, lens@),
        old(src)@.len() <= old(buf)@.len(),
    ensures
        final(src)@.len() == old(src)@.len(),
        final(buf)@.len() == old(buf)@.len(),
        sorted(final(src)@),
        final(src)@.to_multiset() == old(src)@.to_multiset(),
        final(buf)@.subrange(old(src)@.len() as int, old(buf)@.len() as int)
            == old(buf)@.subrange(old(src)@.len() as int, old(buf)@.len() as int),
    decreases lens@.len(),
{
    let n = lens.len();
    if n == 1 {
        proof {
            assert(run_start(lens@, 0) == 0);
            assert(run_is_sorted(src@, lens@, 0));
            assert(src@.subrange(0, src@.len() as int) == src@);
        }
        return;
    }
    let h = n - n / 2;
    let total = src.len();
    let mut left: usize = 0;
    let mut i: usize = 0;
    while i < h
        invariant
            i <= h <= n,
            n == lens@.len(),
            left == run_start(lens@, i as int),
            total == run_start(lens@, n as int),
        decreases h - i,
    {
        proof {
            lemma_run_start_mono(lens@, i + 1, n as int);
            assert(run_start(lens@, i + 1) == run_start(lens@, i as int) + lens@[i as int]);
        }
        left = left + lens[i];
        i += 1;
    }
    proof {
        lemma_runs_split(src@, lens@, h as int);
        lemma_run_start_mono(lens@, h as int, n as int);
    }
    let ghost s0 = src@;
    let ghost b0 = buf@;
    let ghost mut la: Seq<u64> = Seq::empty();
    let ghost mut lb: Seq<u64> = Seq::empty();
    {
        let (a, b) = src.split_at_mut(left);
        let (ta, tb) = buf.split_at_mut(left);
        let ghost tb0 = tb@;
        merge_tree(b, tb, &lens[h..n]);
        merge_tree(a, ta, &lens[0..h]);
        proof {
            la = ta@;
            lb = tb@;
            assert forall|k: int| total - left <= k < tb0.len() implies #[trigger] tb@[k] == tb0[k] by {
                assert(tb@[k] == tb@.subrange(total - left, tb@.len() as int)[k - (total - left)]);
                assert(tb0[k] == tb0.subrange(total - left, tb0.len() as int)[k - (total - left)]);
            }
        }
    }
    proof {
        assert(s0 == s0.subrange(0, left as int) + s0.subrange(left as int, s0.len() as int));
        assert(src@.subrange(0, left as int) == src@.subrange(0, left as int));
    }
    let ghost b1 = buf@;
    proof {
        assert(b1 == la + lb);
        assert(la.len() == left);
        assert forall|k: int| total <= k < b1.len() implies b1[k] == b0[k] by {
            assert(b1[k] == lb[k - left]);
        }
        assert(b1.subrange(total as int, b1.len() as int) =~= b0.subrange(total as int, b0.len() as int));
    }
    merge(src, buf, left);
    proof {
        assert(buf@.subrange(total as int, buf@.len() as int) =~= b0.subrange(total as int, b0.len() as int)) by {
            assert forall|k: int| total <= k < b0.len() implies buf@[k] == b0[k] by {
                assert(buf@[k] == buf@.subrange(total as int, buf@.len() as int)[k - total]);
                assert(b1[k] == b1.subrange(total as int, b1.len() as int)[k - total]);
            }
        }
    }
}

/// Sorts `buf`: with one thread, in one piece; otherwise in chunks of at
/// least 1024 items, one chunk per thread, which are then merged.
pub fn par_sort(buf: &mut [u64], num_threads: usize)
    requires
        num_threads >= 1,
        num_threads > 1 ==> old(buf)@.len() > 0,
        old(buf)@.len() + num_threads <= usize::MAX,
    ensures
        final(buf)@.len() == old(buf)@.len(),
        sorted(final(buf)@),
        final(buf)@.to_multiset() == old(buf)@.to_multiset(),
{
    let len = buf.len();
    if num_threads == 1 {
        sort_range(buf, 0, len);
        proof {
            assert(buf@.subrange(0, len as int) == buf@);
            assert(old(buf)@.subrange(0, len as int) == old(buf)@);
        }
        return;
    }
    let per_thread = (len + num_threads - 1) / num_threads;
    let chunk_size = if per_thread > 1024 { per_thread } else { 1024 };
    let mut lens: Vec<usize> = Vec::new();
    let mut start: usize = 0;
    while start < len
        invariant
            buf@.len() == len,
            start <= len,
            chunk_size >= 1024,
            start == run_start(lens@, lens@.len() as int),
            runs_sorted(buf@.subrange(0, start as int), lens@),
            buf@.to_multiset() == old(buf)@.to_multiset(),
            len > 0,
            start < len ==> true,
            lens@.len() > 0 || start == 0,
        decreases len - start,
    {
        let end = if len - start > chunk_size { start + chunk_size } else { len };
        let ghost pre = buf@;
        sort_range(buf, start, end);
        proof {
            assert(pre == pre.subrange(0, start as int) + pre.subrange(start as int, end as int) + pre.subrange(end as int, len as int));
            assert(buf@ == buf@.subrange(0, start as int) + buf@.subrange(start as int, end as int) + buf@.subrange(end as int, len as int));
            let nl = lens@.push((end - start) as usize);
            lemma_run_start_push(lens@, (end - start) as usize, lens@.len() as int);
            assert forall|i: int| 0 <= i < nl.len() implies #[trigger] run_is_sorted(buf@.subrange(0, end as int), nl, i) by {
                if i < lens@.len() {
                    lemma_run_start_push(lens@, (end - start) as usize, i);
                    lemma_run_start_push(lens@, (end - start) as usize, i + 1);
                    lemma_run_start_mono(lens@, i, i + 1);
                    lemma_run_start_mono(lens@, i + 1, lens@.len() as int);
                    assert(run_is_sorted(pre.subrange(0, start as int), lens@, i));
                    assert(buf@.subrange(0, end as int).subrange(run_start(nl, i) as int, run_start(nl, i + 1) as int) == pre.subrange(0, start as int).subrange(run_start(lens@, i) as int, run_start(lens@, i + 1) as int));
                } else {
                    assert(buf@.subrange(0, end as int).subrange(run_start(nl, i) as int, run_start(nl, i + 1) as int) == buf@.subrange(start as int, end as int));
                }
            }
        }
        lens.push(end - start);
        start = end;
    }
    proof {
        assert(buf@.subrange(0, len as int) == buf@);
    }
    let mut tmp: Vec<u64> = vec![0u64; len];
    merge_tree(buf, tmp.as_mut_slice(), lens.as_slice());
}

} // verus!
