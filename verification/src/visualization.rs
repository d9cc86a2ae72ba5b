//! The numeric side of the visualizations: histogram binning, bar scaling,
//! and the most-frequent-bytes ranking. Drawing the bars is the caller's
//! business.

use vstd::prelude::*;
use crate::numeric::seq_sum;
use crate::numeric::lemma_seq_sum_take_succ;
use crate::numeric::lemma_seq_sum_prefix_le;
use crate::numeric::lemma_seq_sum_elem_le;
use crate::numeric::lemma_seq_sum_update;

verus! {

/// Width of the histogram and graph drawing area, in characters.
pub const HISTOGRAM_WIDTH: u64 = 60;

/// Height of the sliding-window graph drawing area, in rows.
pub const HISTOGRAM_HEIGHT: u64 = 20;

/// Count of bytes with value below `i` that fall in histogram bin `b`
/// (16 bins of 16 consecutive byte values each).
pub open spec fn hist_bin_sum(counts: Seq<u64>, b: int, i: int) -> nat
    decreases i,
{
    if i <= 0 || i > counts.len() {
        0
    } else {
        hist_bin_sum(counts, b, i - 1) + if (i - 1) / 16 == b {
            counts[i - 1] as nat
        } else {
            0nat
        }
    }
}

/// Pool a 256-bin frequency table into 16 histogram bins of 16 consecutive
/// byte values each.
pub fn bin_byte_counts(counts: &Vec<u64>) -> (r: Vec<u64>)
    requires
        counts@.len() == 256,
        seq_sum(counts@) <= u64::MAX,
    ensures
        r@.len() == 16,
        forall|b: int| 0 <= b < 16 ==> r@[b] == hist_bin_sum(counts@, b, 256),
{
    let mut bins: Vec<u64> = Vec::new();
    let mut b: usize = 0;
    while b < 16
        invariant
            bins@.len() == b,
            b <= 16,
            forall|p: int| 0 <= p < b ==> bins@[p] == 0,
            seq_sum(bins@) == 0,
        decreases 16 - b,
    {
        proof {
            assert(bins@.push(0u64).drop_last() =~= bins@);
        }
        bins.push(0);
        b = b + 1;
    }
    let mut i: usize = 0;
    while i < 256
        invariant
            bins@.len() == 16,
            counts@.len() == 256,
            seq_sum(counts@) <= u64::MAX,
            i <= 256,
            forall|p: int| 0 <= p < 16 ==> bins@[p] == hist_bin_sum(counts@, p, i as int),
            seq_sum(bins@) == seq_sum(counts@.take(i as int)),
        decreases 256 - i,
    {
        let c = counts[i];
        let bin = i / 16;
        proof {
            lemma_seq_sum_take_succ(counts@, i as int);
            lemma_seq_sum_prefix_le(counts@, i as int + 1);
            lemma_seq_sum_elem_le(bins@, bin as int);
        }
        let nb = bins[bin] + c;
        let ghost old_bins = bins@;
        bins[bin] = nb;
        proof {
            lemma_seq_sum_update(old_bins, bin as int, nb);
            assert(forall|p: int|
                0 <= p < 16 ==> #[trigger] hist_bin_sum(counts@, p, i as int + 1) == hist_bin_sum(
                    counts@,
                    p,
                    i as int,
                ) + if (i as int) / 16 == p {
                    counts@[i as int] as nat
                } else {
                    0nat
                });
        }
        i = i + 1;
    }
    bins
}

/// Length of a bar of weight `count` out of `max_count`, scaled to `width`
/// characters; zero when there is no weight at all.
pub fn bar_length(count: u64, max_count: u64, width: u64) -> (r: u64)
    requires
        count <= max_count,
        width <= 0xffff_ffff,
    ensures
        max_count == 0 ==> r == 0,
        max_count > 0 ==> r == count * width / (max_count as int),
        r <= width,
{
    if max_count == 0 {
        return 0;
    }
    proof {
        assert((count as int) * (width as int) < 0x1_0000_0000_0000_0000_0000_0000) by (
        nonlinear_arith)
            requires
                count < 0x1_0000_0000_0000_0000,
                width <= 0xffff_ffff,
        ;
    }
    let scaled = (count as u128) * (width as u128);
    let r128 = scaled / (max_count as u128);
    proof {
        vstd::arithmetic::mul::lemma_mul_inequality(count as int, max_count as int, width as int);
        assert(count * width == width * count) by (nonlinear_arith);
        assert(max_count * width == width * max_count) by (nonlinear_arith);
        vstd::arithmetic::div_mod::lemma_multiply_divide_le(
            (count * width) as int,
            max_count as int,
            width as int,
        );
    }
    r128 as u64
}

/// Number of byte values below `i` with a nonzero count.
pub open spec fn nonzero_count(counts: Seq<u64>, i: int) -> nat
    decreases i,
{
    if i <= 0 || i > counts.len() {
        0
    } else {
        nonzero_count(counts, i - 1) + if counts[i - 1] > 0 {
            1nat
        } else {
            0nat
        }
    }
}

/// Whether byte value `v` appears in the ranking `s`.
pub open spec fn listed(s: Seq<(u8, u64)>, v: int) -> bool {
    exists|k: int| 0 <= k < s.len() && (#[trigger] s[k]).0 == v
}

/// Sort ranking pairs by descending count.
fn sort_pairs_desc(v: &mut Vec<(u8, u64)>)
    ensures
        final (v)@.len() == old(v)@.len(),
        final (v)@.to_multiset() == old(v)@.to_multiset(),
        forall|a: int, b: int|
            0 <= a < b < final (v)@.len() ==> (#[trigger] final (v)@[a]).1 >= (#[trigger] final (
            v)@[b]).1,
{
    let n = v.len();
    if n == 0 {
        return ;
    }
    let mut i: usize = 1;
    while i < n
        invariant
            n == v@.len(),
            1 <= i <= n,
            v@.to_multiset() == old(v)@.to_multiset(),
            forall|a: int, b: int| 0 <= a < b < i ==> (#[trigger] v@[a]).1 >= (#[trigger] v@[b]).1,
        decreases n - i,
    {
        let mut j: usize = i;
        while j > 0 && v[j - 1].1 < v[j].1
            invariant
                n == v@.len(),
                0 <= j <= i < n,
                v@.to_multiset() == old(v)@.to_multiset(),
                forall|a: int, b: int|
                    0 <= a < b <= i && b != j ==> (#[trigger] v@[a]).1 >= (#[trigger] v@[b]).1,
            decreases j,
        {
            let x = v[j - 1];
            let y = v[j];
            let ghost before = v@;
            v[j - 1] = y;
            v[j] = x;
            proof {
                broadcast use vstd::multiset::group_multiset_axioms;
                broadcast use vstd::seq_lib::group_to_multiset_ensures;

                let m = before.to_multiset();
                assert(before[j - 1] == x);
                assert(before.contains(x));
                assert(m.count(x) > 0);
                assert(v@ =~= before.update(j - 1, y).update(j as int, x));
                vstd::seq_lib::to_multiset_update(before, j - 1, y);
                assert(before.update(j - 1, y)[j as int] == y);
                vstd::seq_lib::to_multiset_update(before.update(j - 1, y), j as int, x);
                assert(m.insert(y).remove(x).insert(x).remove(y) =~= m);
            }
            j = j - 1;
        }
        i = i + 1;
    }
}

/// The `top_n` most frequent byte values with their counts, most frequent
/// first.
///
/// Each listed pair reads its count straight from the table and is nonzero;
/// no byte value is listed twice; counts never increase down the list; the
/// list holds `top_n` entries, or every nonzero byte value if there are
/// fewer; and a nonzero byte value left out (only possible when the list
/// was cut at `top_n`) counts no more than the last listed entry.
pub fn top_frequent_bytes(counts: &Vec<u64>, top_n: usize) -> (r: Vec<(u8, u64)>)
    requires
        counts@.len() == 256,
    ensures
        forall|k: int|
            0 <= k < r@.len() ==> (#[trigger] r@[k]).1 == counts@[r@[k].0 as int] && r@[k].1 > 0,
        forall|a: int, b: int| 0 <= a < b < r@.len() ==> (#[trigger] r@[a]).0 != (#[trigger] r@[b]).0,
        forall|a: int, b: int| 0 <= a < b < r@.len() ==> (#[trigger] r@[a]).1 >= (#[trigger] r@[b]).1,
        r@.len() == vstd::math::min(top_n as int, nonzero_count(counts@, 256) as int),
        forall|v: int|
            0 <= v < 256 && counts@[v] > 0 && !listed(r@, v) ==> r@.len() == top_n && (top_n > 0
                ==> counts@[v] <= r@[top_n - 1].1),
{
    let mut pairs: Vec<(u8, u64)> = Vec::new();
    let mut i: usize = 0;
    while i < 256
        invariant
            counts@.len() == 256,
            i <= 256,
            pairs@.len() == nonzero_count(counts@, i as int),
            forall|k: int|
                0 <= k < pairs@.len() ==> (#[trigger] pairs@[k]).1 == counts@[pairs@[k].0 as int]
                    && pairs@[k].1 > 0 && pairs@[k].0 < i,
            forall|a: int, b: int|
                0 <= a < b < pairs@.len() ==> (#[trigger] pairs@[a]).0 < (#[trigger] pairs@[b]).0,
            forall|v: int| 0 <= v < i ==> (counts@[v] > 0 <==> listed(pairs@, v)),
        decreases 256 - i,
    {
        let c = counts[i];
        if c > 0 {
            let ghost old_pairs = pairs@;
            pairs.push(((i as u8), c));
            proof {
                assert(forall|k: int| 0 <= k < old_pairs.len() ==> pairs@[k] == old_pairs[k]);
                assert(pairs@[old_pairs.len() as int].0 == i as u8);
                assert forall|v: int| 0 <= v < i + 1 implies (counts@[v] > 0 <==> listed(
                    pairs@,
                    v,
                )) by {
                    if v < i {
                        if listed(old_pairs, v) {
                            let k = choose|k: int|
                                0 <= k < old_pairs.len() && (#[trigger] old_pairs[k]).0 == v;
                            assert(pairs@[k].0 == v);
                        }
                        if listed(pairs@, v) {
                            let k = choose|k: int|
                                0 <= k < pairs@.len() && (#[trigger] pairs@[k]).0 == v;
                            assert(k < old_pairs.len());
                            assert(old_pairs[k].0 == v);
                        }
                    } else {
                        assert(pairs@[old_pairs.len() as int].0 == v);
                    }
                }
            }
        } else {
            proof {
                assert forall|v: int| 0 <= v < i + 1 implies (counts@[v] > 0 <==> listed(
                    pairs@,
                    v,
                )) by {
                    if v == i && listed(pairs@, v) {
                        let k = choose|k: int|
                            0 <= k < pairs@.len() && (#[trigger] pairs@[k]).0 == v;
                        assert(pairs@[k].0 < i);
                    }
                }
            }
        }
        i = i + 1;
    }
    let ghost orig = pairs@;
    proof {
        assert(forall|v: int| 0 <= v < 256 ==> (counts@[v] > 0 <==> listed(orig, v)));
    }
    sort_pairs_desc(&mut pairs);
    proof {
        broadcast use vstd::seq_lib::group_to_multiset_ensures;

        assert forall|k: int| 0 <= k < pairs@.len() implies exists|j: int|
            0 <= j < orig.len() && orig[j] == #[trigger] pairs@[k] by {
            assert(pairs@.contains(pairs@[k]));
            assert(orig.to_multiset().count(pairs@[k]) > 0);
            assert(orig.contains(pairs@[k]));
        }
        assert forall|a: int, b: int| 0 <= a < b < pairs@.len() implies (#[trigger] pairs@[a]).0
            != (#[trigger] pairs@[b]).0 by {
            assert(orig.no_duplicates()) by {
                assert forall|p: int, q: int|
                    0 <= p < q < orig.len() implies orig[p] != orig[q] by {
                    assert(orig[p].0 < orig[q].0);
                }
            }
            orig.lemma_multiset_has_no_duplicates();
            pairs@.lemma_multiset_has_no_duplicates_conv();
            assert(pairs@[a] != pairs@[b]);
            if pairs@[a].0 == pairs@[b].0 {
                let ja = choose|j: int| 0 <= j < orig.len() && orig[j] == pairs@[a];
                let jb = choose|j: int| 0 <= j < orig.len() && orig[j] == pairs@[b];
                assert(orig[ja] != orig[jb]);
                assert(ja != jb);
                assert(orig[ja].0 != orig[jb].0);
            }
        }
        assert forall|v: int| 0 <= v < 256 implies (counts@[v] > 0 <==> listed(pairs@, v)) by {
            if listed(pairs@, v) {
                let k = choose|k: int| 0 <= k < pairs@.len() && (#[trigger] pairs@[k]).0 == v;
                let j = choose|j: int| 0 <= j < orig.len() && orig[j] == pairs@[k];
                assert(orig[j].0 == v);
            }
            if counts@[v] > 0 {
                assert(listed(orig, v));
                let k = choose|k: int| 0 <= k < orig.len() && (#[trigger] orig[k]).0 == v;
                assert(orig.contains(orig[k]));
                assert(orig.to_multiset().count(orig[k]) > 0);
                assert(pairs@.to_multiset().count(orig[k]) > 0);
                assert(pairs@.contains(orig[k]));
                let j = choose|j: int| 0 <= j < pairs@.len() && pairs@[j] == orig[k];
                assert(pairs@[j].0 == v);
            }
        }
    }
    let keep = if top_n < pairs.len() {
        top_n
    } else {
        pairs.len()
    };
    let mut result: Vec<(u8, u64)> = Vec::new();
    let mut k: usize = 0;
    while k < keep
        invariant
            keep <= pairs@.len(),
            k <= keep,
            result@ == pairs@.take(k as int),
        decreases keep - k,
    {
        proof {
            assert(pairs@.take(k as int).push(pairs@[k as int]) =~= pairs@.take(k as int + 1));
        }
        result.push(pairs[k]);
        k = k + 1;
    }
    proof {
        assert(result@ =~= pairs@.take(keep as int));
        assert forall|v: int|
            0 <= v < 256 && counts@[v] > 0 && !listed(result@, v) implies result@.len() == top_n
            && (top_n > 0 ==> counts@[v] <= result@[top_n - 1].1) by {
            assert(listed(pairs@, v));
            let k0 = choose|k0: int| 0 <= k0 < pairs@.len() && (#[trigger] pairs@[k0]).0 == v;
            assert(k0 >= keep) by {
                if k0 < keep {
                    assert(result@[k0].0 == v);
                }
            }
            assert(keep < pairs@.len());
            assert(keep == top_n);
            if top_n > 0 {
                assert(pairs@[top_n - 1].1 >= pairs@[k0].1);
                assert(pairs@[k0].1 == counts@[v]);
            }
        }
    }
    result
}

} // verus!
