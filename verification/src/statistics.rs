//! Aggregate statistics over a batch of file analyses.
//!
//! Two subsets of a batch matter here. The total byte count sums every
//! successful analysis (no error), whichever entropy mode it carries. The
//! distribution statistics are computed over the narrower valid subset
//! (no error, byte-level entropy present) only, and are absent — not
//! zero — when that subset is empty.

use vstd::prelude::*;
use vstd::relations::sorted_by;
use vstd::relations::total_ordering;
use vstd::seq_lib::lemma_sorted_unique;
use crate::analysis::FileAnalysis;
use crate::numeric::seq_sum;
use crate::numeric::is_floor_sqrt;
use crate::numeric::isqrt128;
use crate::numeric::lemma_seq_sum_take_succ;
use crate::numeric::lemma_seq_sum_bounded;
use crate::entropy::BYTE_ENTROPY_CAP;

verus! {

/// A batch entry counts for the distribution statistics when it carries a
/// byte-level entropy and no error.
pub open spec fn is_valid(r: FileAnalysis) -> bool {
    r.error is None && r.byte_entropy is Some
}

/// The byte-level entropies of the valid entries, in batch order.
pub open spec fn valid_entropies(rs: Seq<FileAnalysis>) -> Seq<u64>
    decreases rs.len(),
{
    if rs.len() == 0 {
        Seq::empty()
    } else if is_valid(rs.last()) {
        valid_entropies(rs.drop_last()).push(rs.last().byte_entropy->Some_0)
    } else {
        valid_entropies(rs.drop_last())
    }
}

/// Total size of the successfully analyzed files: every entry without an
/// error contributes its size, whichever entropy mode it carries; failed
/// entries count nothing.
pub open spec fn successful_total_bytes(rs: Seq<FileAnalysis>) -> nat
    decreases rs.len(),
{
    if rs.len() == 0 {
        0
    } else if rs.last().error is None {
        (successful_total_bytes(rs.drop_last()) + rs.last().size_bytes) as nat
    } else {
        successful_total_bytes(rs.drop_last())
    }
}

/// The ordering by which entropies are ranked.
pub open spec fn entropy_leq() -> spec_fn(u64, u64) -> bool {
    |x: u64, y: u64| x <= y
}

/// The valid entropies in ascending order: the sample over which median and
/// percentiles are read off.
pub open spec fn sorted_entropies(rs: Seq<FileAnalysis>) -> Seq<u64> {
    valid_entropies(rs).sort_by(entropy_leq())
}

/// Index of the `p`-th percentile in a sorted sample of `n` values:
/// `floor(p * (n - 1) / 100)`, the nearest-rank-by-truncation rule.
pub open spec fn percentile_index(p: int, n: int) -> int {
    p * (n - 1) / 100
}

/// Median of a sorted sample: the middle value, or for an even count the
/// average of the two middle values, rounded down to the fixed-point grid.
pub open spec fn median_of(s: Seq<u64>) -> u64 {
    if s.len() % 2 == 0 {
        ((s[s.len() as int / 2 - 1] + s[s.len() as int / 2]) / 2) as u64
    } else {
        s[s.len() as int / 2]
    }
}

/// Arithmetic mean of a sample, rounded down to the fixed-point grid.
pub open spec fn mean_of(s: Seq<u64>) -> u64 {
    (seq_sum(s) / s.len()) as u64
}

/// Sum of squared deviations from `mean` over the sample.
pub open spec fn sum_sq_dev(s: Seq<u64>, mean: u64) -> nat
    decreases s.len(),
{
    if s.len() == 0 {
        0
    } else {
        (sum_sq_dev(s.drop_last(), mean) + (s.last() - mean) * (s.last() - mean)) as nat
    }
}

/// Sample variance with Bessel's correction: the squared deviations from the
/// mean divided by `n - 1`. Meaningful only for `n >= 2`.
pub open spec fn variance_of(s: Seq<u64>) -> nat {
    sum_sq_dev(s, mean_of(s)) / ((s.len() - 1) as nat)
}

proof fn lemma_valid_entropies_take_succ(rs: Seq<FileAnalysis>, i: int)
    requires
        0 <= i < rs.len(),
    ensures
        is_valid(rs[i]) ==> valid_entropies(rs.take(i + 1)) == valid_entropies(rs.take(i)).push(
            rs[i].byte_entropy->Some_0,
        ),
        !is_valid(rs[i]) ==> valid_entropies(rs.take(i + 1)) == valid_entropies(rs.take(i)),
        rs[i].error is None ==> successful_total_bytes(rs.take(i + 1)) == successful_total_bytes(
            rs.take(i),
        ) + rs[i].size_bytes,
        rs[i].error is Some ==> successful_total_bytes(rs.take(i + 1)) == successful_total_bytes(
            rs.take(i),
        ),
{
    assert(rs.take(i + 1).drop_last() =~= rs.take(i));
    assert(rs.take(i + 1).last() == rs[i]);
}

proof fn lemma_successful_total_bytes_prefix_le(rs: Seq<FileAnalysis>, i: int)
    requires
        0 <= i <= rs.len(),
    ensures
        successful_total_bytes(rs.take(i)) <= successful_total_bytes(rs),
    decreases rs.len() - i,
{
    if i == rs.len() {
        assert(rs.take(i) =~= rs);
    } else {
        lemma_valid_entropies_take_succ(rs, i);
        lemma_successful_total_bytes_prefix_le(rs, i + 1);
    }
}

/// Sort a vector of entropies in ascending order. The result is sorted and
/// holds exactly the same values (as a multiset) as the input.
fn sort_entropies(v: &mut Vec<u64>)
    ensures
        sorted_by(final (v)@, entropy_leq()),
        final (v)@.to_multiset() == old(v)@.to_multiset(),
        final (v)@.len() == old(v)@.len(),
{
    broadcast use vstd::seq_lib::group_to_multiset_ensures;
    broadcast use vstd::multiset::group_multiset_axioms;

    let n = v.len();
    if n == 0 {
        return ;
    }
    let mut i: usize = 1;
    while i < n
        invariant
            n == v@.len(),
            1 <= i || n == 0,
            i <= n,
            v@.to_multiset() == old(v)@.to_multiset(),
            forall|a: int, b: int| 0 <= a < b < i ==> entropy_leq()(v@[a], v@[b]),
        decreases n - i,
    {
        let mut j: usize = i;
        while j > 0 && v[j - 1] > v[j]
            invariant
                n == v@.len(),
                0 <= j <= i < n,
                v@.to_multiset() == old(v)@.to_multiset(),
                forall|a: int, b: int|
                    0 <= a < b <= i && b != j ==> entropy_leq()(v@[a], v@[b]),
            decreases j,
        {
            let x = v[j - 1];
            let y = v[j];
            let ghost before = v@;
            v[j - 1] = y;
            v[j] = x;
            proof {
                broadcast use vstd::multiset::group_multiset_axioms;
                broadcast use vstd::seq_lib::group_to_multiset_ensures;

                let m = before.to_multiset();
                assert(before[j - 1] == x);
                assert(before.contains(x));
                assert(m.count(x) > 0);
                assert(v@ =~= before.update(j - 1, y).update(j as int, x));
                vstd::seq_lib::to_multiset_update(before, j - 1, y);
                assert(before.update(j - 1, y).to_multiset() == m.insert(y).remove(x));
                assert(before.update(j - 1, y)[j as int] == y);
                vstd::seq_lib::to_multiset_update(before.update(j - 1, y), j as int, x);
                assert(v@.to_multiset() == m.insert(y).remove(x).insert(x).remove(y));
                assert(m.insert(y).remove(x).insert(x).remove(y) =~= m);
            }
            j = j - 1;
        }
        i = i + 1;
    }
}

proof fn lemma_valid_entropies_bounded(rs: Seq<FileAnalysis>)
    requires
        forall|i: int| 0 <= i < rs.len() ==> (#[trigger] rs[i]).wf(),
    ensures
        forall|k: int|
            0 <= k < valid_entropies(rs).len() ==> #[trigger] valid_entropies(rs)[k]
                <= BYTE_ENTROPY_CAP,
    decreases rs.len(),
{
    if rs.len() > 0 {
        assert(forall|i: int|
            0 <= i < rs.drop_last().len() ==> (#[trigger] rs.drop_last()[i]).wf());
        lemma_valid_entropies_bounded(rs.drop_last());
        let prefix = valid_entropies(rs.drop_last());
        if is_valid(rs.last()) {
            assert(rs.last() == rs[rs.len() - 1]);
            assert(rs.last().wf());
            let x = rs.last().byte_entropy->Some_0;
            assert(valid_entropies(rs) == prefix.push(x));
            assert forall|k: int| 0 <= k < valid_entropies(rs).len() implies #[trigger] valid_entropies(
                rs,
            )[k] <= BYTE_ENTROPY_CAP by {
                if k < prefix.len() {
                    assert(valid_entropies(rs)[k] == prefix[k]);
                } else {
                    assert(valid_entropies(rs)[k] == x);
                }
            }
        } else {
            assert(valid_entropies(rs) == prefix);
        }
    }
}

proof fn lemma_sum_sq_dev_take_succ(s: Seq<u64>, mean: u64, j: int)
    requires
        0 <= j < s.len(),
    ensures
        sum_sq_dev(s.take(j + 1), mean) == sum_sq_dev(s.take(j), mean) + (s[j] - mean) * (s[j]
            - mean),
{
    assert(s.take(j + 1).drop_last() =~= s.take(j));
    assert(s.take(j + 1).last() == s[j]);
    assert((s[j] - mean) * (s[j] - mean) >= 0) by (nonlinear_arith);
}

/// Value at the `p`-th percentile of a sorted, non-empty sample, by the
/// nearest-rank-by-truncation rule.
fn percentile(sorted: &Vec<u64>, p: u64) -> (r: u64)
    requires
        sorted@.len() > 0,
        p <= 99,
    ensures
        0 <= percentile_index(p as int, sorted@.len() as int) < sorted@.len(),
        r == sorted@[percentile_index(p as int, sorted@.len() as int)],
{
    let n = sorted.len();
    proof {
        vstd::arithmetic::mul::lemma_mul_inequality(p as int, 99, n - 1);
        vstd::arithmetic::mul::lemma_mul_nonnegative(p as int, n - 1);
    }
    let idx128: u128 = (p as u128) * ((n - 1) as u128) / 100;
    proof {
        let pn = (p as int) * (n - 1);
        assert(99 * (n - 1) <= 100 * (n - 1));
        vstd::arithmetic::div_mod::lemma_div_is_ordered(pn, 100 * (n - 1), 100);
        vstd::arithmetic::div_mod::lemma_div_multiples_vanish(n - 1, 100);
        assert(100 * (n - 1) == (n - 1) * 100) by (nonlinear_arith);
        vstd::arithmetic::mul::lemma_mul_nonnegative(p as int, n - 1);
        vstd::arithmetic::div_mod::lemma_div_pos_is_pos(pn, 100);
        assert(0 <= percentile_index(p as int, n as int) <= n - 1);
    }
    let idx = idx128 as usize;
    sorted[idx]
}

/// Summary of a batch: counts, total size of the successfully analyzed
/// files, and the distribution of the valid byte-level entropies. Every
/// distribution field is absent when no entry is valid; the standard
/// deviation additionally requires at least two valid entries.
#[derive(Clone, Debug)]
pub struct AggregateStatistics {
    pub total_files: usize,
    pub total_bytes: u64,
    pub entropy_min: Option<u64>,
    pub entropy_max: Option<u64>,
    pub entropy_avg: Option<u64>,
    pub entropy_stddev: Option<u64>,
    pub entropy_median: Option<u64>,
    pub entropy_p25: Option<u64>,
    pub entropy_p75: Option<u64>,
    pub entropy_p90: Option<u64>,
    pub entropy_p95: Option<u64>,
    pub entropy_p99: Option<u64>,
}

/// Reduce a batch of analyses to aggregate statistics.
///
/// The batch entries must obey the `FileAnalysis` invariant, and the sizes
/// of the valid entries must not sum beyond `u64::MAX`. Minimum, maximum,
/// mean, median and the five percentiles are read off the sorted valid
/// entropies; the sample standard deviation (Bessel-corrected) is present
/// only for two or more valid entries. The percentiles are monotone:
/// p25 <= p75 <= p90 <= p95 <= p99 whenever they are present.
pub fn calculate_aggregate_statistics(results: &Vec<FileAnalysis>) -> (r: AggregateStatistics)
    requires
        forall|i: int| 0 <= i < results@.len() ==> (#[trigger] results@[i]).wf(),
        successful_total_bytes(results@) <= u64::MAX,
    ensures
        r.total_files == results@.len(),
        r.total_bytes == successful_total_bytes(results@),
        valid_entropies(results@).len() == 0 ==> {
            &&& r.entropy_min is None
            &&& r.entropy_max is None
            &&& r.entropy_avg is None
            &&& r.entropy_stddev is None
            &&& r.entropy_median is None
            &&& r.entropy_p25 is None
            &&& r.entropy_p75 is None
            &&& r.entropy_p90 is None
            &&& r.entropy_p95 is None
            &&& r.entropy_p99 is None
        },
        valid_entropies(results@).len() > 0 ==> {
            let s = sorted_entropies(results@);
            let n = s.len() as int;
            &&& n == valid_entropies(results@).len()
            &&& r.entropy_min == Some(s[0])
            &&& r.entropy_max == Some(s[n - 1])
            &&& r.entropy_avg == Some(mean_of(s))
            &&& r.entropy_median == Some(median_of(s))
            &&& r.entropy_p25 == Some(s[percentile_index(25, n)])
            &&& r.entropy_p75 == Some(s[percentile_index(75, n)])
            &&& r.entropy_p90 == Some(s[percentile_index(90, n)])
            &&& r.entropy_p95 == Some(s[percentile_index(95, n)])
            &&& r.entropy_p99 == Some(s[percentile_index(99, n)])
            &&& r.entropy_p25->Some_0 <= r.entropy_p75->Some_0 <= r.entropy_p90->Some_0
                <= r.entropy_p95->Some_0 <= r.entropy_p99->Some_0
        },
        valid_entropies(results@).len() >= 2 ==> (r.entropy_stddev matches Some(sd)
            && is_floor_sqrt(variance_of(sorted_entropies(results@)), sd as nat)),
        valid_entropies(results@).len() < 2 ==> r.entropy_stddev is None,
{
    let n_results = results.len();
    let mut entropies: Vec<u64> = Vec::new();
    let mut total_bytes: u64 = 0;
    let mut i: usize = 0;
    while i < n_results
        invariant
            n_results == results@.len(),
            i <= n_results,
            forall|k: int| 0 <= k < results@.len() ==> (#[trigger] results@[k]).wf(),
            successful_total_bytes(results@) <= u64::MAX,
            entropies@ == valid_entropies(results@.take(i as int)),
            total_bytes == successful_total_bytes(results@.take(i as int)),
        decreases n_results - i,
    {
        proof {
            lemma_valid_entropies_take_succ(results@, i as int);
            lemma_successful_total_bytes_prefix_le(results@, i as int + 1);
        }
        let entry = &results[i];
        if entry.error.is_none() {
            total_bytes = total_bytes + entry.size_bytes;
            if entry.byte_entropy.is_some() {
                entropies.push(entry.byte_entropy.unwrap());
            }
        }
        i = i + 1;
    }
    proof {
        assert(results@.take(n_results as int) =~= results@);
    }
    let count = entropies.len();
    if count == 0 {
        return AggregateStatistics {
            total_files: n_results,
            total_bytes,
            entropy_min: None,
            entropy_max: None,
            entropy_avg: None,
            entropy_stddev: None,
            entropy_median: None,
            entropy_p25: None,
            entropy_p75: None,
            entropy_p90: None,
            entropy_p95: None,
            entropy_p99: None,
        };
    }
    sort_entropies(&mut entropies);
    proof {
        let vs = valid_entropies(results@);
        let leq = entropy_leq();
        assert(total_ordering(leq));
        vs.lemma_sort_by_ensures(leq);
        lemma_sorted_unique(entropies@, vs.sort_by(leq), leq);
        assert(entropies@ =~= sorted_entropies(results@));
        lemma_valid_entropies_bounded(results@);
        broadcast use vstd::seq_lib::group_to_multiset_ensures;

        assert forall|k: int| 0 <= k < entropies@.len() implies #[trigger] entropies@[k]
            <= BYTE_ENTROPY_CAP by {
            assert(entropies@.contains(entropies@[k]));
            assert(vs.to_multiset().count(entropies@[k]) > 0);
            assert(vs.contains(entropies@[k]));
            let w = choose|w: int| 0 <= w < vs.len() && vs[w] == entropies@[k];
            assert(vs[w] <= BYTE_ENTROPY_CAP);
        }
    }
    let entropy_min = entropies[0];
    let entropy_max = entropies[count - 1];
    let mut acc: u128 = 0;
    let mut j: usize = 0;
    while j < count
        invariant
            count == entropies@.len(),
            j <= count,
            forall|k: int| 0 <= k < entropies@.len() ==> #[trigger] entropies@[k] <= BYTE_ENTROPY_CAP,
            acc == seq_sum(entropies@.take(j as int)),
        decreases count - j,
    {
        proof {
            lemma_seq_sum_take_succ(entropies@, j as int);
            lemma_seq_sum_bounded(entropies@.take(j as int + 1), BYTE_ENTROPY_CAP);
            assert(entropies@.take(j as int + 1).len() * BYTE_ENTROPY_CAP <= entropies@.len()
                * BYTE_ENTROPY_CAP) by (nonlinear_arith)
                requires
                    entropies@.take(j as int + 1).len() <= entropies@.len(),
            ;
            assert(entropies@.len() * BYTE_ENTROPY_CAP <= 0xffff_ffff_ffff_ffffu64 * 524288) by (
            nonlinear_arith)
                requires
                    entropies@.len() <= 0xffff_ffff_ffff_ffffu64,
                    BYTE_ENTROPY_CAP == 524288,
            ;
        }
        acc = acc + (entropies[j] as u128);
        j = j + 1;
    }
    proof {
        assert(entropies@.take(count as int) =~= entropies@);
    }
    let avg128: u128 = acc / (count as u128);
    proof {
        lemma_seq_sum_bounded(entropies@, BYTE_ENTROPY_CAP);
        vstd::arithmetic::div_mod::lemma_multiply_divide_le(
            acc as int,
            count as int,
            BYTE_ENTROPY_CAP as int,
        );
        assert(count * BYTE_ENTROPY_CAP == BYTE_ENTROPY_CAP * count) by (nonlinear_arith);
        assert(avg128 <= BYTE_ENTROPY_CAP);
    }
    let entropy_avg: u64 = avg128 as u64;
    let entropy_median: u64 = if count % 2 == 0 {
        let a = entropies[count / 2 - 1];
        let b = entropies[count / 2];
        proof {
            assert((a + b) / 2 <= BYTE_ENTROPY_CAP as int + BYTE_ENTROPY_CAP as int);
        }
        (((a as u128) + (b as u128)) / 2) as u64
    } else {
        entropies[count / 2]
    };
    let entropy_stddev: Option<u64> = if count >= 2 {
        let mut acc2: u128 = 0;
        let mut j2: usize = 0;
        while j2 < count
            invariant
                count == entropies@.len(),
                j2 <= count,
                forall|k: int|
                    0 <= k < entropies@.len() ==> #[trigger] entropies@[k] <= BYTE_ENTROPY_CAP,
                entropy_avg <= BYTE_ENTROPY_CAP,
                acc2 == sum_sq_dev(entropies@.take(j2 as int), entropy_avg),
                acc2 <= entropies@.take(j2 as int).len() * 0x4000000000,
            decreases count - j2,
        {
            let x = entropies[j2];
            let d: u64 = if x >= entropy_avg {
                x - entropy_avg
            } else {
                entropy_avg - x
            };
            proof {
                lemma_sum_sq_dev_take_succ(entropies@, entropy_avg, j2 as int);
                assert((d as int) * (d as int) == (entropies@[j2 as int] - entropy_avg) * (
                entropies@[j2 as int] - entropy_avg)) by (nonlinear_arith)
                    requires
                        d == if entropies@[j2 as int] >= entropy_avg {
                            entropies@[j2 as int] - entropy_avg
                        } else {
                            entropy_avg - entropies@[j2 as int]
                        },
                ;
                assert((d as int) * (d as int) <= 0x4000000000) by (nonlinear_arith)
                    requires
                        d <= 524288,
                ;
                assert((entropies@.take(j2 as int).len() + 1) * 0x4000000000 == entropies@.take(
                    j2 as int,
                ).len() * 0x4000000000 + 0x4000000000) by (nonlinear_arith);
                assert(entropies@.take(j2 as int + 1).len() * 0x4000000000 <= entropies@.len()
                    * 0x4000000000) by (nonlinear_arith)
                    requires
                        entropies@.take(j2 as int + 1).len() <= entropies@.len(),
                ;
                assert(entropies@.len() * 0x4000000000 < 0x80_0000_0000_0000_0000_0000_0000) by (
                nonlinear_arith)
                    requires
                        entropies@.len() <= 0xffff_ffff_ffff_ffffu64,
                ;
            }
            acc2 = acc2 + (d as u128) * (d as u128);
            j2 = j2 + 1;
        }
        proof {
            assert(entropies@.take(count as int) =~= entropies@);
        }
        let var128: u128 = acc2 / ((count - 1) as u128);
        let sd = isqrt128(var128);
        Some(sd as u64)
    } else {
        None
    };
    let entropy_p25 = percentile(&entropies, 25);
    let entropy_p75 = percentile(&entropies, 75);
    let entropy_p90 = percentile(&entropies, 90);
    let entropy_p95 = percentile(&entropies, 95);
    let entropy_p99 = percentile(&entropies, 99);
    proof {
        let s = entropies@;
        let n = s.len() as int;
        let i25 = percentile_index(25, n);
        let i75 = percentile_index(75, n);
        let i90 = percentile_index(90, n);
        let i95 = percentile_index(95, n);
        let i99 = percentile_index(99, n);
        vstd::arithmetic::div_mod::lemma_div_is_ordered(25 * (n - 1), 75 * (n - 1), 100);
        vstd::arithmetic::div_mod::lemma_div_is_ordered(75 * (n - 1), 90 * (n - 1), 100);
        vstd::arithmetic::div_mod::lemma_div_is_ordered(90 * (n - 1), 95 * (n - 1), 100);
        vstd::arithmetic::div_mod::lemma_div_is_ordered(95 * (n - 1), 99 * (n - 1), 100);
        assert(i25 <= i75 <= i90 <= i95 <= i99);
        assert(forall|a: int, b: int|
            0 <= a < b < s.len() ==> #[trigger] entropy_leq()(s[a], s[b]));
        if i25 < i75 {
            assert(entropy_leq()(s[i25], s[i75]));
        }
        if i75 < i90 {
            assert(entropy_leq()(s[i75], s[i90]));
        }
        if i90 < i95 {
            assert(entropy_leq()(s[i90], s[i95]));
        }
        if i95 < i99 {
            assert(entropy_leq()(s[i95], s[i99]));
        }
        assert(s[i25] <= s[i75] <= s[i90] <= s[i95] <= s[i99]);
    }
    AggregateStatistics {
        total_files: n_results,
        total_bytes,
        entropy_min: Some(entropy_min),
        entropy_max: Some(entropy_max),
        entropy_avg: Some(entropy_avg),
        entropy_stddev,
        entropy_median: Some(entropy_median),
        entropy_p25: Some(entropy_p25),
        entropy_p75: Some(entropy_p75),
        entropy_p90: Some(entropy_p90),
        entropy_p95: Some(entropy_p95),
        entropy_p99: Some(entropy_p99),
    }
}

} // verus!
