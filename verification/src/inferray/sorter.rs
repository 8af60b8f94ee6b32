//! Sorting pairs by histogram: the first components pick a bucket, the second
//! components are ordered inside it, and equal pairs are emitted once.

use crate::inferray::pairs::{
    is_distinct_sort_of, lemma_strictly_sorted_unique, pair_lt, pairs_of, strictly_sorted,
};
use vstd::prelude::*;

verus! {

/// `x` occurs in `v` at a position from `lo` up to, not including, `hi`.
pub open spec fn range_contains(v: Seq<u64>, lo: int, hi: int, x: u64) -> bool {
    exists|p: int| lo <= p < hi && #[trigger] v[p] == x
}

/// `v` does not decrease from position `lo` up to, not including, `hi`.
pub open spec fn range_sorted(v: Seq<u64>, lo: int, hi: int) -> bool {
    forall|a: int, b: int| lo <= a <= b < hi ==> #[trigger] v[a] <= #[trigger] v[b]
}

/// A value occurs in a range exactly if the multiset of the range holds it.
proof fn lemma_range_contains_multiset(v: Seq<u64>, lo: int, hi: int, x: u64)
    requires
        0 <= lo <= hi <= v.len(),
    ensures
        range_contains(v, lo, hi, x) <==> v.subrange(lo, hi).to_multiset().count(x) > 0,
{
    let r = v.subrange(lo, hi);
    vstd::seq_lib::to_multiset_contains(r, x);
    if range_contains(v, lo, hi, x) {
        let p = choose|p: int| lo <= p < hi && v[p] == x;
        assert(r[p - lo] == x);
    }
    if r.contains(x) {
        let q = choose|q: int| 0 <= q < r.len() && r[q] == x;
        assert(v[q + lo] == x);
    }
}

/// Moving the element before the gap into the gap keeps the elements of the
/// range, the value `tmp` standing in for the gap.
proof fn lemma_shift_keeps_elements(r: Seq<u64>, g: int, tmp: u64)
    requires
        0 < g < r.len(),
    ensures
        r.update(g, r[g - 1]).update(g - 1, tmp).to_multiset() == r.update(g, tmp).to_multiset(),
{
    assert(r.update(g, r[g - 1]).update(g - 1, tmp) =~= r.update(g, tmp).update(g, r[g - 1]).update(
        g - 1,
        tmp,
    ));
    let w = r.update(g, tmp);
    // exchanging two neighbours is a rearrangement
    let a = w.subrange(0, g - 1);
    let b = w.subrange(g + 1, w.len() as int);
    let x = w[g - 1];
    let y = w[g];
    assert(w =~= a.push(x).push(y) + b);
    assert(w.update(g, x).update(g - 1, y) =~= a.push(y).push(x) + b);
    vstd::seq_lib::lemma_multiset_commutative(a.push(x).push(y), b);
    vstd::seq_lib::lemma_multiset_commutative(a.push(y).push(x), b);
    vstd::seq_lib::to_multiset_build(a, x);
    vstd::seq_lib::to_multiset_build(a.push(x), y);
    vstd::seq_lib::to_multiset_build(a, y);
    vstd::seq_lib::to_multiset_build(a.push(y), x);
    assert(a.push(x).push(y).to_multiset() =~= a.push(y).push(x).to_multiset());
}

/// Sorts `v[from..to]` in place by insertion: the range comes out in
/// ascending order with the elements it had, and the rest of `v` is left as
/// it was.
pub fn insertion_sort_slice(v: &mut [u64], from: usize, to: usize)
    requires
        from <= to <= old(v)@.len(),
    ensures
        final(v)@.len() == old(v)@.len(),
        range_sorted(final(v)@, from as int, to as int),
        final(v)@.subrange(from as int, to as int).to_multiset() == old(v)@.subrange(
            from as int,
            to as int,
        ).to_multiset(),
        forall|x: u64|
            range_contains(final(v)@, from as int, to as int, x) <==> range_contains(
                old(v)@,
                from as int,
                to as int,
                x,
            ),
        forall|p: int|
            0 <= p < old(v)@.len() && !(from <= p < to) ==> final(v)@[p] == old(v)@[p],
{
    let ghost elements = v@.subrange(from as int, to as int).to_multiset();
    let mut i = from;
    while i < to
        invariant
            from <= i <= to <= v@.len(),
            v@.len() == old(v)@.len(),
            range_sorted(v@, from as int, i as int),
            v@.subrange(from as int, to as int).to_multiset() == elements,
            forall|p: int| 0 <= p < v@.len() && !(from <= p < to) ==> v@[p] == old(v)@[p],
        decreases to - i,
    {
        let mut j = i;
        let tmp = v[i];
        proof {
            assert(v@.subrange(from as int, to as int).update(j - from, tmp) =~= v@.subrange(
                from as int,
                to as int,
            ));
        }
        while j > from && v[j - 1] > tmp
            invariant
                from <= j <= i < to <= v@.len(),
                v@.len() == old(v)@.len(),
                // without position `j`, the prefix up to `i` is sorted
                forall|a: int, b: int|
                    from <= a <= b <= i && a != j && b != j ==> #[trigger] v@[a] <= #[trigger] v@[b],
                forall|a: int| j < a <= i ==> tmp < #[trigger] v@[a],
                v@.subrange(from as int, to as int).update(j - from, tmp).to_multiset()
                    == elements,
                forall|p: int| 0 <= p < v@.len() && !(from <= p < to) ==> v@[p] == old(v)@[p],
            decreases j,
        {
            let ghost r = v@.subrange(from as int, to as int);
            v[j] = v[j - 1];
            j -= 1;
            proof {
                let g = j + 1 - from;
                assert(v@.subrange(from as int, to as int) =~= r.update(g, r[g - 1]));
                lemma_shift_keeps_elements(r, g, tmp);
            }
        }
        let ghost r = v@.subrange(from as int, to as int);
        v[j] = tmp;
        proof {
            assert(v@.subrange(from as int, to as int) =~= r.update(j - from, tmp));
        }
        i += 1;
    }
    proof {
        assert forall|x: u64|
            range_contains(v@, from as int, to as int, x) <==> range_contains(
                old(v)@,
                from as int,
                to as int,
                x,
            ) by {
            lemma_range_contains_multiset(v@, from as int, to as int, x);
            lemma_range_contains_multiset(old(v)@, from as int, to as int, x);
        }
    }
}

/// Number of pairs of `s` whose first component is `v`.
pub open spec fn count_first(s: Seq<[u64; 2]>, v: int) -> nat
    decreases s.len(),
{
    if s.len() == 0 {
        0
    } else {
        count_first(s.drop_last(), v) + if s.last()[0] == v {
            1nat
        } else {
            0nat
        }
    }
}

/// Number of pairs of `s` whose first component is below `v`.
pub open spec fn count_below(s: Seq<[u64; 2]>, v: int) -> nat
    decreases s.len(),
{
    if s.len() == 0 {
        0
    } else {
        count_below(s.drop_last(), v) + if s.last()[0] < v {
            1nat
        } else {
            0nat
        }
    }
}

/// Every first component of `s` lies in `[min, max]`.
pub open spec fn firsts_within(s: Seq<[u64; 2]>, min: u64, max: u64) -> bool {
    forall|i: int| 0 <= i < s.len() ==> min <= (#[trigger] s[i])[0] <= max
}

/// `hist[k]` counts the pairs of `s` whose first component is `min + k`.
pub open spec fn is_histogram(hist: Seq<usize>, s: Seq<[u64; 2]>, min: u64, width: int) -> bool {
    &&& hist.len() == width
    &&& forall|k: int| 0 <= k < width ==> #[trigger] hist[k] == count_first(s, min + k)
}

/// `offsets[k]` counts the pairs of `s` whose first component is below
/// `min + k`: where bucket `k` starts once the pairs are laid out by bucket.
pub open spec fn is_offsets(offsets: Seq<usize>, s: Seq<[u64; 2]>, min: u64, width: int) -> bool {
    &&& offsets.len() == width
    &&& forall|k: int| 0 <= k < width ==> #[trigger] offsets[k] == count_below(s, min + k)
}

/// Sum of the first `k` entries of `h`.
pub open spec fn prefix_sum(h: Seq<usize>, k: int) -> int
    decreases k,
{
    if k <= 0 {
        0
    } else {
        prefix_sum(h, k - 1) + h[k - 1]
    }
}

/// The buckets lie side by side and fill positions `0..len`.
spec fn offsets_tile(offsets: Seq<usize>, counts: Seq<usize>, len: int) -> bool {
    &&& offsets.len() == counts.len()
    &&& offsets.len() > 0
    &&& forall|k: int| 0 <= k < offsets.len() ==> #[trigger] offsets[k] + counts[k] <= len
    &&& forall|a: int, b: int|
        0 <= a < b < offsets.len() ==> #[trigger] offsets[a] + counts[a] <= #[trigger] offsets[b]
    &&& forall|k: int|
        0 <= k < offsets.len() - 1 ==> offsets[k + 1] == offsets[k] + #[trigger] counts[k]
    &&& offsets[0] == 0
    &&& offsets[offsets.len() - 1] + counts[offsets.len() - 1] == len
}

/// `x` occurs in bucket `k` of `v`.
spec fn bucket_contains(
    v: Seq<u64>,
    offsets: Seq<usize>,
    counts: Seq<usize>,
    k: int,
    x: u64,
) -> bool {
    range_contains(v, offsets[k] as int, offsets[k] + counts[k], x)
}

/// Bucket `k` of `v` does not decrease.
spec fn bucket_sorted(v: Seq<u64>, offsets: Seq<usize>, counts: Seq<usize>, k: int) -> bool {
    range_sorted(v, offsets[k] as int, offsets[k] + counts[k])
}

/// Bucket `k` of `objects` holds exactly the second components of the pairs
/// of `input` whose first component is `min + k`.
spec fn buckets_cover(
    input: Seq<[u64; 2]>,
    objects: Seq<u64>,
    offsets: Seq<usize>,
    counts: Seq<usize>,
    min: u64,
) -> bool {
    &&& forall|k: int, p: int|
        #![trigger offsets[k], objects[p]]
        0 <= k < offsets.len() && offsets[k] <= p < offsets[k] + counts[k] ==> pairs_of(
            input,
        ).contains(((min + k) as u64, objects[p]))
    &&& forall|i: int|
        #![trigger input[i]]
        0 <= i < input.len() ==> 0 <= input[i][0] - min < offsets.len() && bucket_contains(
            objects,
            offsets,
            counts,
            input[i][0] - min,
            input[i][1],
        )
}

proof fn lemma_count_step(s: Seq<[u64; 2]>, i: int, v: int)
    requires
        0 <= i < s.len(),
    ensures
        count_first(s.take(i + 1), v) == count_first(s.take(i), v) + if s[i][0] == v {
            1nat
        } else {
            0nat
        },
        count_below(s.take(i + 1), v) == count_below(s.take(i), v) + if s[i][0] < v {
            1nat
        } else {
            0nat
        },
{
    assert(s.take(i + 1).drop_last() =~= s.take(i));
}

proof fn lemma_count_prefix(s: Seq<[u64; 2]>, i: int, v: int)
    requires
        0 <= i <= s.len(),
    ensures
        count_first(s.take(i), v) <= count_first(s, v),
        count_first(s.take(i), v) <= i,
    decreases s.len() - i,
{
    lemma_count_len(s.take(i), v);
    if i < s.len() {
        lemma_count_step(s, i, v);
        lemma_count_prefix(s, i + 1, v);
    } else {
        assert(s.take(i) =~= s);
        lemma_count_len(s, v);
    }
}

proof fn lemma_count_len(s: Seq<[u64; 2]>, v: int)
    ensures
        count_first(s, v) <= s.len(),
        count_below(s, v) <= s.len(),
    decreases s.len(),
{
    if s.len() > 0 {
        lemma_count_len(s.drop_last(), v);
    }
}

proof fn lemma_count_split(s: Seq<[u64; 2]>, v: int)
    ensures
        count_below(s, v + 1) == count_below(s, v) + count_first(s, v),
    decreases s.len(),
{
    if s.len() > 0 {
        lemma_count_split(s.drop_last(), v);
    }
}

proof fn lemma_count_below_monotone(s: Seq<[u64; 2]>, v: int, w: int)
    requires
        v <= w,
    ensures
        count_below(s, v) <= count_below(s, w),
    decreases s.len(),
{
    if s.len() > 0 {
        lemma_count_below_monotone(s.drop_last(), v, w);
    }
}

proof fn lemma_count_below_ends(s: Seq<[u64; 2]>, min: u64, max: u64)
    requires
        firsts_within(s, min, max),
    ensures
        count_below(s, min as int) == 0,
        count_below(s, max + 1) == s.len(),
    decreases s.len(),
{
    if s.len() > 0 {
        assert(min <= s[s.len() - 1][0] <= max);
        assert forall|i: int| 0 <= i < s.drop_last().len() implies min <= (
        #[trigger] s.drop_last()[i])[0] <= max by {
            assert(s.drop_last()[i] == s[i]);
        }
        lemma_count_below_ends(s.drop_last(), min, max);
    }
}

proof fn lemma_prefix_sum_monotone(h: Seq<usize>, a: int, b: int)
    requires
        0 <= a <= b <= h.len(),
    ensures
        0 <= prefix_sum(h, a) <= prefix_sum(h, b),
    decreases b,
{
    if a < b {
        lemma_prefix_sum_monotone(h, a, b - 1);
    } else if a > 0 {
        lemma_prefix_sum_monotone(h, a - 1, a - 1);
    }
}

/// The prefix sums of a histogram are the counts of smaller first components.
proof fn lemma_prefix_sum_counts(h: Seq<usize>, s: Seq<[u64; 2]>, min: u64, max: u64, k: int)
    requires
        firsts_within(s, min, max),
        is_histogram(h, s, min, h.len() as int),
        0 <= k <= h.len(),
    ensures
        prefix_sum(h, k) == count_below(s, min + k),
    decreases k,
{
    if k <= 0 {
        lemma_count_below_ends(s, min, max);
    } else {
        lemma_prefix_sum_counts(h, s, min, max, k - 1);
        lemma_count_split(s, min + k - 1);
    }
}

/// With the histogram and the offsets of one input, the buckets tile `0..len`.
proof fn lemma_offsets_tile(
    offsets: Seq<usize>,
    counts: Seq<usize>,
    s: Seq<[u64; 2]>,
    min: u64,
    max: u64,
)
    requires
        min <= max,
        firsts_within(s, min, max),
        is_histogram(counts, s, min, max - min + 1),
        is_offsets(offsets, s, min, max - min + 1),
    ensures
        offsets_tile(offsets, counts, s.len() as int),
{
    let width = max - min + 1;
    lemma_count_below_ends(s, min, max);
    assert forall|k: int| 0 <= k < width implies #[trigger] offsets[k] + counts[k] <= s.len() by {
        lemma_count_split(s, min + k);
        lemma_count_len(s, min + k + 1);
    }
    assert forall|a: int, b: int| 0 <= a < b < width implies #[trigger] offsets[a] + counts[a]
        <= #[trigger] offsets[b] by {
        lemma_count_split(s, min + a);
        lemma_count_below_monotone(s, min + a + 1, min + b);
    }
    assert forall|k: int| 0 <= k < width - 1 implies offsets[k + 1] == offsets[k]
        + #[trigger] counts[k] by {
        lemma_count_split(s, min + k);
    }
    lemma_count_split(s, min + width - 1);
}

/// Empties `buf` and fills it with `width` zeros.
fn zero_fill(buf: &mut Vec<usize>, width: usize)
    ensures
        final(buf)@.len() == width,
        forall|k: int| 0 <= k < width ==> final(buf)@[k] == 0,
{
    buf.clear();
    while buf.len() < width
        invariant
            buf@.len() <= width,
            forall|k: int| 0 <= k < buf@.len() ==> buf@[k] == 0,
        decreases width - buf@.len(),
    {
        buf.push(0);
    }
}

/// Adds to `hist[k]` the number of pairs whose first component is `min + k`.
pub fn build_hist(pairs: &[[u64; 2]], min: u64, hist: &mut Vec<usize>)
    requires
        forall|i: int|
            0 <= i < pairs@.len() ==> min <= (#[trigger] pairs@[i])[0] && pairs@[i][0] - min < old(
                hist,
            )@.len(),
        forall|k: int| 0 <= k < old(hist)@.len() ==> old(hist)@[k] == 0,
    ensures
        is_histogram(final(hist)@, pairs@, min, old(hist)@.len() as int),
{
    let mut i: usize = 0;
    while i < pairs.len()
        invariant
            i <= pairs@.len(),
            hist@.len() == old(hist)@.len(),
            forall|i: int|
                0 <= i < pairs@.len() ==> min <= (#[trigger] pairs@[i])[0] && pairs@[i][0] - min
                    < hist@.len(),
            forall|k: int|
                0 <= k < hist@.len() ==> #[trigger] hist@[k] == count_first(
                    pairs@.take(i as int),
                    min + k,
                ),
        decreases pairs@.len() - i,
    {
        assert(min <= pairs@[i as int][0] && pairs@[i as int][0] - min < hist.len());
        let b = (pairs[i][0] - min) as usize;
        proof {
            lemma_count_prefix(pairs@, i as int, min + b);
            assert forall|k: int| 0 <= k < hist@.len() implies #[trigger] hist@[k] + (if k == b {
                1nat
            } else {
                0nat
            }) == count_first(pairs@.take(i + 1), min + k) by {
                lemma_count_step(pairs@, i as int, min + k);
            }
        }
        hist[b] = hist[b] + 1;
        i += 1;
    }
    proof {
        assert(pairs@.take(i as int) =~= pairs@);
    }
}

/// Writes into `cumul` the running sums of `hist`: `cumul[k]` is the sum of
/// the entries of `hist` before position `k`.
pub fn build_cumul(hist: &[usize], cumul: &mut Vec<usize>)
    requires
        prefix_sum(hist@, hist@.len() as int) <= usize::MAX,
    ensures
        final(cumul)@.len() == hist@.len(),
        forall|k: int| 0 <= k < hist@.len() ==> #[trigger] final(cumul)@[k] == prefix_sum(hist@, k),
{
    cumul.clear();
    if hist.len() == 0 {
        return ;
    }
    cumul.push(0);
    let mut i: usize = 1;
    while i < hist.len()
        invariant
            1 <= i <= hist@.len(),
            cumul@.len() == i,
            prefix_sum(hist@, hist@.len() as int) <= usize::MAX,
            forall|k: int| 0 <= k < i ==> #[trigger] cumul@[k] == prefix_sum(hist@, k),
        decreases hist@.len() - i,
    {
        proof {
            lemma_prefix_sum_monotone(hist@, i as int, hist@.len() as int);
        }
        let next = cumul[i - 1] + hist[i - 1];
        cumul.push(next);
        i += 1;
    }
}

/// Lays the second components of `pairs` out by bucket, each bucket filled
/// from its front; `hist` counts down to zero as the buckets fill.
fn scatter(
    pairs: &Vec<[u64; 2]>,
    hist: &mut Vec<usize>,
    hist2: &Vec<usize>,
    cumul: &Vec<usize>,
    min: u64,
) -> (objects: Vec<u64>)
    requires
        forall|i: int|
            0 <= i < pairs.len() ==> min <= (#[trigger] pairs@[i])[0] && pairs@[i][0] - min
                < hist2.len(),
        old(hist)@ == hist2@,
        is_histogram(hist2@, pairs@, min, hist2.len() as int),
        offsets_tile(cumul@, hist2@, pairs.len() as int),
    ensures
        objects.len() == pairs.len(),
        buckets_cover(pairs@, objects@, cumul@, hist2@, min),
        final(hist).len() == hist2.len(),
        forall|k: int| 0 <= k < hist2.len() ==> final(hist)@[k] == 0,
{
    let len = pairs.len();
    let mut objects: Vec<u64> = vec![0; len];
    let ghost mut dest: Seq<int> = Seq::new(len as nat, |i: int| 0int);
    let ghost mut src: Seq<int> = Seq::new(len as nat, |i: int| 0int);
    let mut i: usize = 0;
    while i < len
        invariant
            i <= len,
            len == pairs.len(),
            len == objects.len(),
            dest.len() == len,
            src.len() == len,
            hist.len() == hist2.len(),
            forall|i: int|
                0 <= i < pairs.len() ==> min <= (#[trigger] pairs@[i])[0] && pairs@[i][0] - min
                    < hist2.len(),
            is_histogram(hist2@, pairs@, min, hist2.len() as int),
            offsets_tile(cumul@, hist2@, pairs.len() as int),
            forall|k: int|
                0 <= k < hist2.len() ==> #[trigger] hist@[k] <= hist2@[k] && hist2@[k] - hist@[k]
                    == count_first(pairs@.take(i as int), min + k),
            forall|idx: int|
                0 <= idx < i ==> cumul@[pairs@[idx][0] - min] <= #[trigger] dest[idx]
                    < cumul@[pairs@[idx][0] - min] + hist2@[pairs@[idx][0] - min]
                    - hist@[pairs@[idx][0] - min] && objects@[dest[idx]] == pairs@[idx][1],
            forall|k: int, p: int|
                #![trigger cumul@[k], src[p]]
                0 <= k < cumul.len() && cumul@[k] <= p < cumul@[k] + hist2@[k] - hist@[k] ==> 0
                    <= src[p] < i && pairs@[src[p]][0] == min + k && pairs@[src[p]][1]
                    == objects@[p],
        decreases len - i,
    {
        assert(min <= pairs@[i as int][0] && pairs@[i as int][0] - min < hist2.len());
        let b = (pairs[i][0] - min) as usize;
        let ghost h0 = hist@;
        let ghost o0 = objects@;
        let ghost dest0 = dest;
        let ghost src0 = src;
        proof {
            lemma_count_prefix(pairs@, i + 1, min + b);
            assert forall|k: int| 0 <= k < hist2.len() implies #[trigger] h0[k] <= hist2@[k]
                && hist2@[k] - h0[k] + (if k == b {
                1nat
            } else {
                0nat
            }) == count_first(pairs@.take(i + 1), min + k) by {
                lemma_count_step(pairs@, i as int, min + k);
            }
            assert(h0[b as int] > 0);
        }
        let pos = cumul[b] + (hist2[b] - hist[b]);
        objects[pos] = pairs[i][1];
        hist[b] = hist[b] - 1;
        proof {
            dest = dest.update(i as int, pos as int);
            src = src.update(pos as int, i as int);
            assert forall|idx: int| 0 <= idx < i + 1 implies cumul@[pairs@[idx][0] - min]
                <= #[trigger] dest[idx] < cumul@[pairs@[idx][0] - min] + hist2@[pairs@[idx][0]
                - min] - hist@[pairs@[idx][0] - min] && objects@[dest[idx]]
                == pairs@[idx][1] by {
                if idx < i {
                    let k = pairs@[idx][0] - min;
                    assert(cumul@[k] <= dest0[idx] < cumul@[k] + hist2@[k] - h0[k]);
                    if k < b {
                        assert(cumul@[k] + hist2@[k] <= cumul@[b as int]);
                    } else if k > b {
                        assert(cumul@[b as int] + hist2@[b as int] <= cumul@[k]);
                    }
                    assert(dest0[idx] != pos);
                }
            }
            assert forall|k: int, p: int|
                #![trigger cumul@[k], src[p]]
                0 <= k < cumul.len() && cumul@[k] <= p < cumul@[k] + hist2@[k] - hist@[k] implies 0
                <= src[p] < i + 1 && pairs@[src[p]][0] == min + k && pairs@[src[p]][1]
                == objects@[p] by {
                if k == b && p == pos {
                } else {
                    if k < b {
                        assert(cumul@[k] + hist2@[k] <= cumul@[b as int]);
                    } else if k > b {
                        assert(cumul@[b as int] + hist2@[b as int] <= cumul@[k]);
                    }
                    assert(p != pos);
                    assert(cumul@[k] <= p < cumul@[k] + hist2@[k] - h0[k]);
                    assert(0 <= src0[p] < i && pairs@[src0[p]][0] == min + k);
                }
            }
        }
        i += 1;
    }
    proof {
        assert(pairs@.take(len as int) =~= pairs@);
        assert forall|k: int, p: int|
            #![trigger cumul@[k], objects@[p]]
            0 <= k < cumul.len() && cumul@[k] <= p < cumul@[k] + hist2@[k] implies pairs_of(
            pairs@,
        ).contains(((min + k) as u64, objects@[p])) by {
            assert(hist@[k] == 0);
            assert(0 <= src[p] < len && pairs@[src[p]][0] == min + k);
            assert(pairs_of(pairs@)[src[p]] == ((min + k) as u64, objects@[p]));
        }
        assert forall|i: int| #![trigger pairs@[i]] 0 <= i < pairs.len() implies 0 <= pairs@[i][0]
            - min < cumul.len() && bucket_contains(
            objects@,
            cumul@,
            hist2@,
            pairs@[i][0] - min,
            pairs@[i][1],
        ) by {
            let k = pairs@[i][0] - min;
            assert(hist@[k] == 0);
            assert(objects@[dest[i]] == pairs@[i][1]);
        }
    }
    objects
}

/// Sorts every bucket of `objects` in place.
fn sort_buckets(objects: &mut Vec<u64>, cumul: &Vec<usize>, Ghost(counts): Ghost<Seq<usize>>)
    requires
        offsets_tile(cumul@, counts, old(objects).len() as int),
    ensures
        final(objects).len() == old(objects).len(),
        forall|k: int|
            0 <= k < cumul.len() ==> #[trigger] bucket_sorted(final(objects)@, cumul@, counts, k),
        forall|k: int, x: u64|
            0 <= k < cumul.len() ==> (#[trigger] bucket_contains(
                final(objects)@,
                cumul@,
                counts,
                k,
                x,
            ) <==> bucket_contains(old(objects)@, cumul@, counts, k, x)),
{
    let width = cumul.len();
    let len = objects.len();
    let mut k: usize = 0;
    while k < width
        invariant
            k <= width,
            width == cumul.len(),
            len == objects.len(),
            len == old(objects).len(),
            offsets_tile(cumul@, counts, len as int),
            forall|q: int| 0 <= q < k ==> #[trigger] bucket_sorted(objects@, cumul@, counts, q),
            forall|q: int, x: u64|
                0 <= q < k ==> (#[trigger] bucket_contains(objects@, cumul@, counts, q, x)
                    <==> bucket_contains(old(objects)@, cumul@, counts, q, x)),
            forall|p: int|
                k < width && cumul@[k as int] <= p < len ==> objects@[p] == old(objects)@[p],
        decreases width - k,
    {
        let from = cumul[k];
        let to = if k + 1 < width {
            cumul[k + 1]
        } else {
            len
        };
        assert(to == cumul@[k as int] + counts[k as int]);
        let ghost prev = objects@;
        insertion_sort_slice(objects.as_mut_slice(), from, to);
        proof {
            assert forall|q: int| 0 <= q < k + 1 implies #[trigger] bucket_sorted(
                objects@,
                cumul@,
                counts,
                q,
            ) by {
                if q < k {
                    assert(bucket_sorted(prev, cumul@, counts, q));
                    assert(cumul@[q] + counts[q] <= cumul@[k as int]);
                }
            }
            assert forall|q: int, x: u64| 0 <= q < k + 1 implies (#[trigger] bucket_contains(
                objects@,
                cumul@,
                counts,
                q,
                x,
            ) <==> bucket_contains(old(objects)@, cumul@, counts, q, x)) by {
                if q < k {
                    assert(cumul@[q] + counts[q] <= cumul@[k as int]);
                    lemma_same_range(objects@, prev, cumul@[q] as int, cumul@[q] + counts[q], x);
                    assert(bucket_contains(prev, cumul@, counts, q, x) <==> bucket_contains(
                        old(objects)@,
                        cumul@,
                        counts,
                        q,
                        x,
                    ));
                } else {
                    lemma_same_range(prev, old(objects)@, from as int, to as int, x);
                }
            }
            if k + 1 < width {
                assert(cumul@[k as int] + counts[k as int] <= cumul@[k + 1]);
            }
        }
        k += 1;
    }
}

proof fn lemma_same_range(v: Seq<u64>, w: Seq<u64>, lo: int, hi: int, x: u64)
    requires
        0 <= lo <= hi <= v.len(),
        v.len() == w.len(),
        forall|p: int| lo <= p < hi ==> v[p] == w[p],
    ensures
        range_contains(v, lo, hi, x) <==> range_contains(w, lo, hi, x),
{
    if range_contains(v, lo, hi, x) {
        let p = choose|p: int| lo <= p < hi && v[p] == x;
        assert(w[p] == x);
    }
    if range_contains(w, lo, hi, x) {
        let p = choose|p: int| lo <= p < hi && w[p] == x;
        assert(v[p] == x);
    }
}

/// The pairs that the first `j` entries of `pairs` stand for.
spec fn emitted(pairs: Seq<[u64; 2]>, j: int) -> Seq<(u64, u64)> {
    pairs_of(pairs.take(j))
}

/// Every pair of `out` occurs in `inp`.
#[verifier::opaque]
spec fn all_from(out: Seq<(u64, u64)>, inp: Seq<(u64, u64)>) -> bool {
    forall|m: int| 0 <= m < out.len() ==> inp.contains(#[trigger] out[m])
}

/// `out` holds the pair of every position of `objects` before `l`.
#[verifier::opaque]
spec fn covered_upto(
    out: Seq<(u64, u64)>,
    objects: Seq<u64>,
    offsets: Seq<usize>,
    counts: Seq<usize>,
    min: u64,
    l: int,
) -> bool {
    forall|q: int, p: int|
        #![trigger offsets[q], objects[p]]
        0 <= q < offsets.len() && offsets[q] <= p < offsets[q] + counts[q] && p < l
            ==> out.contains(((min + q) as u64, objects[p]))
}

proof fn lemma_sorted_push(out: Seq<(u64, u64)>, x: (u64, u64))
    requires
        strictly_sorted(out),
        out.len() > 0 ==> pair_lt(out.last(), x),
    ensures
        strictly_sorted(out.push(x)),
{
    let next = out.push(x);
    assert forall|a: int, b: int| 0 <= a < b < next.len() implies pair_lt(
        #[trigger] next[a],
        #[trigger] next[b],
    ) by {
        if b < out.len() {
            assert(pair_lt(out[a], out[b]));
        } else if a < out.len() - 1 {
            assert(pair_lt(out[a], out[out.len() - 1]));
        }
    }
}

proof fn lemma_all_from_push(out: Seq<(u64, u64)>, inp: Seq<(u64, u64)>, x: (u64, u64))
    requires
        all_from(out, inp),
        inp.contains(x),
    ensures
        all_from(out.push(x), inp),
{
    reveal(all_from);
    let next = out.push(x);
    assert forall|m: int| 0 <= m < next.len() implies inp.contains(#[trigger] next[m]) by {
        if m < out.len() {
            assert(next[m] == out[m]);
        }
    }
}

/// Position `l` lies in bucket `k` and in no other.
proof fn lemma_covered_step(
    out: Seq<(u64, u64)>,
    next: Seq<(u64, u64)>,
    objects: Seq<u64>,
    offsets: Seq<usize>,
    counts: Seq<usize>,
    min: u64,
    k: int,
    l: int,
)
    requires
        offsets_tile(offsets, counts, objects.len() as int),
        0 <= k < offsets.len(),
        offsets[k] <= l < offsets[k] + counts[k],
        covered_upto(out, objects, offsets, counts, min, l),
        next == out || next == out.push(((min + k) as u64, objects[l])),
        next.contains(((min + k) as u64, objects[l])),
    ensures
        covered_upto(next, objects, offsets, counts, min, l + 1),
{
    reveal(covered_upto);
    assert forall|q: int, p: int|
        #![trigger offsets[q], objects[p]]
        0 <= q < offsets.len() && offsets[q] <= p < offsets[q] + counts[q] && p < l
            + 1 implies next.contains(((min + q) as u64, objects[p])) by {
        let x = ((min + q) as u64, objects[p]);
        if p < l {
            assert(out.contains(x));
            let m = choose|m: int| 0 <= m < out.len() && out[m] == x;
            assert(next[m] == x);
        } else {
            if q < k {
                assert(offsets[q] + counts[q] <= offsets[k]);
            } else if q > k {
                assert(offsets[k] + counts[k] <= offsets[q]);
            }
            assert(q == k);
        }
    }
}

/// Walks the buckets in ascending order and writes each pair back into
/// `pairs`, skipping a second component equal to the one just before it in
/// the same bucket. Returns how many pairs were written.
fn emit_distinct(
    pairs: &mut Vec<[u64; 2]>,
    objects: &Vec<u64>,
    hist2: &Vec<usize>,
    min: u64,
    Ghost(offsets): Ghost<Seq<usize>>,
) -> (j: usize)
    requires
        old(pairs).len() == objects.len(),
        min + hist2.len() - 1 <= u64::MAX,
        offsets_tile(offsets, hist2@, objects.len() as int),
        buckets_cover(old(pairs)@, objects@, offsets, hist2@, min),
        forall|k: int| 0 <= k < hist2.len() ==> #[trigger] bucket_sorted(objects@, offsets, hist2@, k),
    ensures
        final(pairs).len() == old(pairs).len(),
        j <= final(pairs).len(),
        is_distinct_sort_of(emitted(final(pairs)@, j as int), pairs_of(old(pairs)@)),
{
    let ghost input = pairs@;
    let ghost mut out: Seq<(u64, u64)> = Seq::empty();
    let width = hist2.len();
    let len = objects.len();
    let mut j: usize = 0;
    let mut l: usize = 0;
    let mut last: u64 = 0;
    let mut k: usize = 0;
    proof {
        assert(emitted(pairs@, 0) =~= out);
        reveal(all_from);
        reveal(covered_upto);
    }
    while k < width
        invariant
            k <= width,
            width == hist2.len(),
            len == objects.len(),
            len == pairs.len(),
            j <= l <= len,
            k < width ==> l == offsets[k as int],
            k == width ==> l == len,
            min + width - 1 <= u64::MAX,
            offsets_tile(offsets, hist2@, len as int),
            buckets_cover(input, objects@, offsets, hist2@, min),
            forall|q: int| 0 <= q < width ==> #[trigger] bucket_sorted(objects@, offsets, hist2@, q),
            out == emitted(pairs@, j as int),
            strictly_sorted(out),
            all_from(out, pairs_of(input)),
            covered_upto(out, objects@, offsets, hist2@, min, l as int),
            j > 0 ==> out.last().0 < min + k,
        decreases width - k,
    {
        let val = hist2[k];
        let s = min + k as u64;
        let mut r: usize = 0;
        assert(offsets[k as int] + hist2@[k as int] <= len);
        while r < val
            invariant
                k < width,
                width == hist2.len(),
                len == objects.len(),
                len == pairs.len(),
                val == hist2@[k as int],
                s == min + k,
                r <= val,
                j <= l <= len,
                l == offsets[k as int] + r,
                offsets[k as int] + val <= len,
                offsets_tile(offsets, hist2@, len as int),
                buckets_cover(input, objects@, offsets, hist2@, min),
                bucket_sorted(objects@, offsets, hist2@, k as int),
                out == emitted(pairs@, j as int),
                strictly_sorted(out),
                all_from(out, pairs_of(input)),
                covered_upto(out, objects@, offsets, hist2@, min, l as int),
                r == 0 ==> (j > 0 ==> out.last().0 < s),
                r > 0 ==> j > 0 && out.last() == (s, last) && last == objects@[l - 1],
            decreases val - r,
        {
            let o = objects[l];
            let ghost out0 = out;
            proof {
                assert(offsets[k as int] <= l < offsets[k as int] + hist2@[k as int]);
                assert(pairs_of(input).contains(((min + k) as u64, objects@[l as int])));
                if r > 0 {
                    assert(objects@[l - 1] <= objects@[l as int]);
                }
            }
            if r == 0 || o != last {
                pairs[j] = [s, o];
                j += 1;
                proof {
                    out = out0.push((s, o));
                    assert(emitted(pairs@, j as int) =~= out);
                    lemma_sorted_push(out0, (s, o));
                    lemma_all_from_push(out0, pairs_of(input), (s, o));
                }
            }
            proof {
                assert(out[out.len() - 1] == (s, o));
                lemma_covered_step(out0, out, objects@, offsets, hist2@, min, k as int, l as int);
            }
            l += 1;
            last = o;
            r += 1;
        }
        proof {
            if k + 1 < width {
                assert(offsets[k + 1] == offsets[k as int] + hist2@[k as int]);
            }
        }
        k += 1;
    }
    proof {
        reveal(all_from);
        reveal(covered_upto);
        assert forall|x: (u64, u64)| out.to_set().contains(x) implies pairs_of(input).to_set().contains(
            x,
        ) by {
            let m = choose|m: int| 0 <= m < out.len() && out[m] == x;
            assert(pairs_of(input).contains(out[m]));
        }
        assert forall|x: (u64, u64)| pairs_of(input).to_set().contains(x) implies out.to_set().contains(
            x,
        ) by {
            let i = choose|i: int| 0 <= i < pairs_of(input).len() && pairs_of(input)[i] == x;
            let q = input[i][0] - min;
            assert(bucket_contains(objects@, offsets, hist2@, q, input[i][1]));
            let p = choose|p: int|
                offsets[q] <= p < offsets[q] + hist2@[q] && objects@[p] == input[i][1];
            assert(out.contains(((min + q) as u64, objects@[p])));
        }
        assert(out.to_set() =~= pairs_of(input).to_set());
    }
    j
}

/// Counts the first components: leaves the histogram in `hist` and `hist2`
/// and the offset of each bucket in `cumul`.
fn tally(
    pairs: &Vec<[u64; 2]>,
    hist: &mut Vec<usize>,
    hist2: &mut Vec<usize>,
    cumul: &mut Vec<usize>,
    min: u64,
    max: u64,
    width: usize,
)
    requires
        min <= max,
        width == max - min + 1,
        firsts_within(pairs@, min, max),
    ensures
        final(hist)@ == final(hist2)@,
        is_histogram(final(hist2)@, pairs@, min, width as int),
        is_offsets(final(cumul)@, pairs@, min, width as int),
        offsets_tile(final(cumul)@, final(hist2)@, pairs.len() as int),
{
    zero_fill(hist, width);
    proof {
        assert forall|i: int| 0 <= i < pairs.len() implies min <= (#[trigger] pairs@[i])[0]
            && pairs@[i][0] - min < hist.len() by {}
    }
    build_hist(pairs.as_slice(), min, hist);
    *hist2 = hist.clone();
    proof {
        assert(hist2@ =~= hist@);
        lemma_prefix_sum_counts(hist@, pairs@, min, max, width as int);
        lemma_count_below_ends(pairs@, min, max);
        assert(prefix_sum(hist@, width as int) == pairs.len());
    }
    build_cumul(hist.as_slice(), cumul);
    proof {
        assert forall|k: int| 0 <= k < width implies #[trigger] cumul@[k] == count_below(
            pairs@,
            min + k,
        ) by {
            lemma_prefix_sum_counts(hist@, pairs@, min, max, k);
        }
        lemma_offsets_tile(cumul@, hist2@, pairs@, min, max);
    }
}

/// Sorting the buckets keeps what each of them holds.
proof fn lemma_cover_kept(
    input: Seq<[u64; 2]>,
    scattered: Seq<u64>,
    objects: Seq<u64>,
    offsets: Seq<usize>,
    counts: Seq<usize>,
    min: u64,
)
    requires
        buckets_cover(input, scattered, offsets, counts, min),
        forall|k: int, x: u64|
            0 <= k < offsets.len() ==> (#[trigger] bucket_contains(objects, offsets, counts, k, x)
                <==> bucket_contains(scattered, offsets, counts, k, x)),
    ensures
        buckets_cover(input, objects, offsets, counts, min),
{
    assert forall|k: int, p: int|
        #![trigger offsets[k], objects[p]]
        0 <= k < offsets.len() && offsets[k] <= p < offsets[k] + counts[k] implies pairs_of(
        input,
    ).contains(((min + k) as u64, objects[p])) by {
        assert(bucket_contains(objects, offsets, counts, k, objects[p]));
        assert(bucket_contains(scattered, offsets, counts, k, objects[p]));
        let q = choose|q: int|
            offsets[k] <= q < offsets[k] + counts[k] && scattered[q] == objects[p];
        assert(pairs_of(input).contains(((min + k) as u64, scattered[q])));
    }
    assert forall|i: int| #![trigger input[i]] 0 <= i < input.len() implies 0 <= input[i][0] - min
        < offsets.len() && bucket_contains(objects, offsets, counts, input[i][0] - min, input[i][1]) by {
        assert(bucket_contains(scattered, offsets, counts, input[i][0] - min, input[i][1]));
    }
}

/// Lays the second components out by bucket and sorts each bucket.
fn lay_out(
    pairs: &Vec<[u64; 2]>,
    hist: &mut Vec<usize>,
    hist2: &Vec<usize>,
    cumul: &Vec<usize>,
    min: u64,
) -> (objects: Vec<u64>)
    requires
        forall|i: int|
            0 <= i < pairs.len() ==> min <= (#[trigger] pairs@[i])[0] && pairs@[i][0] - min
                < hist2.len(),
        old(hist)@ == hist2@,
        is_histogram(hist2@, pairs@, min, hist2.len() as int),
        offsets_tile(cumul@, hist2@, pairs.len() as int),
    ensures
        objects.len() == pairs.len(),
        buckets_cover(pairs@, objects@, cumul@, hist2@, min),
        forall|k: int| 0 <= k < hist2.len() ==> #[trigger] bucket_sorted(objects@, cumul@, hist2@, k),
        final(hist).len() == hist2.len(),
        forall|k: int| 0 <= k < hist2.len() ==> final(hist)@[k] == 0,
{
    let mut objects = scatter(pairs, hist, hist2, cumul, min);
    let ghost scattered = objects@;
    sort_buckets(&mut objects, cumul, Ghost(hist2@));
    proof {
        lemma_cover_kept(pairs@, scattered, objects@, cumul@, hist2@, min);
    }
    objects
}

/// Sorts `pairs` by `(first, second)` and keeps each pair once; returns how
/// many pairs are left.
///
/// `[min, max]` is the range of the first components and `width` the number
/// of values in it. The three buffers are working space: whatever they held
/// is discarded. Afterwards `hist2` holds the histogram of the first
/// components, `cumul` the offset of each bucket, and `hist` is all zero.
/// On an empty input nothing is touched.
pub fn bucket_sort_pairs(
    pairs: &mut Vec<[u64; 2]>,
    hist: &mut Vec<usize>,
    hist2: &mut Vec<usize>,
    cumul: &mut Vec<usize>,
    min: u64,
    max: u64,
    width: usize,
) -> (count: usize)
    requires
        old(pairs).len() > 0 ==> min <= max && width == max - min + 1 && firsts_within(
            old(pairs)@,
            min,
            max,
        ),
    ensures
        count == final(pairs).len(),
        is_distinct_sort_of(pairs_of(final(pairs)@), pairs_of(old(pairs)@)),
        strictly_sorted(pairs_of(old(pairs)@)) ==> pairs_of(final(pairs)@) == pairs_of(old(pairs)@),
        old(pairs).len() == 0 ==> final(hist)@ == old(hist)@ && final(hist2)@ == old(hist2)@
            && final(cumul)@ == old(cumul)@,
        old(pairs).len() > 0 ==> is_histogram(final(hist2)@, old(pairs)@, min, width as int)
            && is_offsets(final(cumul)@, old(pairs)@, min, width as int) && final(hist)@
            == Seq::new(width as nat, |k: int| 0usize),
{
    if pairs.is_empty() {
        proof {
            assert(pairs_of(pairs@) =~= pairs_of(old(pairs)@));
        }
        return 0;
    }
    let ghost input = pairs@;
    tally(pairs, hist, hist2, cumul, min, max, width);
    proof {
        assert forall|i: int| 0 <= i < input.len() implies min <= (#[trigger] input[i])[0]
            && input[i][0] - min < hist2.len() by {}
    }
    let objects = lay_out(pairs, hist, hist2, cumul, min);
    let j = emit_distinct(pairs, &objects, hist2, min, Ghost(cumul@));
    proof {
        assert(pairs@.take(j as int) =~= pairs@.subrange(0, j as int));
    }
    pairs.truncate(j);
    proof {
        assert(hist@ =~= Seq::new(width as nat, |k: int| 0usize));
        if strictly_sorted(pairs_of(input)) {
            lemma_strictly_sorted_unique(pairs_of(pairs@), pairs_of(input));
        }
    }
    j
}


/// Inserting into a sequence adds the element to its set.
proof fn lemma_insert_to_set(s: Seq<(u64, u64)>, pos: int, x: (u64, u64))
    requires
        0 <= pos <= s.len(),
    ensures
        s.insert(pos, x).to_set() == s.to_set().insert(x),
{
    let t = s.insert(pos, x);
    assert forall|y: (u64, u64)| t.to_set().contains(y) <==> s.to_set().insert(x).contains(y) by {
        if t.to_set().contains(y) {
            let k = choose|k: int| 0 <= k < t.len() && t[k] == y;
            if k < pos {
                assert(s[k] == y);
            } else if k > pos {
                assert(s[k - 1] == y);
            }
        }
        if s.to_set().contains(y) {
            let k = choose|k: int| 0 <= k < s.len() && s[k] == y;
            if k < pos {
                assert(t[k] == y);
            } else {
                assert(t[k + 1] == y);
            }
        }
        if y == x {
            assert(t[pos] == y);
        }
    }
    assert(t.to_set() =~= s.to_set().insert(x));
}

/// Sorts `pairs` by `(first, second)` and keeps each pair once, by putting
/// one pair after the other into its place; returns how many pairs are
/// left. It needs no histogram, so it serves where the range of the first
/// components is too wide for one.
pub fn insertion_sort_pairs(pairs: &mut Vec<[u64; 2]>) -> (count: usize)
    ensures
        count == final(pairs).len(),
        is_distinct_sort_of(pairs_of(final(pairs)@), pairs_of(old(pairs)@)),
        strictly_sorted(pairs_of(old(pairs)@)) ==> pairs_of(final(pairs)@) == pairs_of(old(pairs)@),
{
    let ghost input = pairs_of(pairs@);
    let mut out: Vec<[u64; 2]> = Vec::new();
    let mut i: usize = 0;
    proof {
        assert(pairs_of(out@).to_set() =~= input.take(0).to_set());
    }
    while i < pairs.len()
        invariant
            i <= pairs.len(),
            input == pairs_of(pairs@),
            strictly_sorted(pairs_of(out@)),
            pairs_of(out@).to_set() == input.take(i as int).to_set(),
        decreases pairs.len() - i,
    {
        let x = pairs[i];
        let ghost px = (x[0], x[1]);
        let ghost listed = pairs_of(out@);
        let mut pos: usize = 0;
        while pos < out.len() && (out[pos][0] < x[0] || (out[pos][0] == x[0] && out[pos][1] < x[1]))
            invariant
                pos <= out.len(),
                listed == pairs_of(out@),
                px == (x[0], x[1]),
                forall|k: int| 0 <= k < pos ==> pair_lt(#[trigger] listed[k], px),
            decreases out.len() - pos,
        {
            pos += 1;
        }
        proof {
            assert(input.take(i + 1) =~= input.take(i as int).push(px));
            input.take(i as int).lemma_push_to_set_commute(px);
        }
        if pos < out.len() && out[pos][0] == x[0] && out[pos][1] == x[1] {
            proof {
                assert(listed[pos as int] == px);
                assert(listed.to_set().contains(px));
                assert(listed.to_set().insert(px) =~= listed.to_set());
            }
        } else {
            out.insert(pos, x);
            proof {
                let next = pairs_of(out@);
                assert(next =~= listed.insert(pos as int, px));
                lemma_insert_to_set(listed, pos as int, px);
                assert forall|a: int, b: int| 0 <= a < b < next.len() implies pair_lt(
                    #[trigger] next[a],
                    #[trigger] next[b],
                ) by {
                    if b < pos {
                        assert(pair_lt(listed[a], listed[b]));
                    } else if b == pos {
                        assert(pair_lt(listed[a], px));
                    } else if a == pos {
                        assert(!pair_lt(listed[pos as int], px));
                        if b - 1 > pos {
                            assert(pair_lt(listed[pos as int], listed[b - 1]));
                        }
                    } else if a < pos {
                        assert(pair_lt(listed[a], listed[b - 1]));
                    } else {
                        assert(pair_lt(listed[a - 1], listed[b - 1]));
                    }
                }
            }
        }
        i += 1;
    }
    proof {
        assert(input.take(i as int) =~= input);
        if strictly_sorted(input) {
            lemma_strictly_sorted_unique(pairs_of(out@), input);
        }
    }
    *pairs = out;
    pairs.len()
}

} // verus!
