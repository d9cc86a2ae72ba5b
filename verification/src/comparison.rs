//! Pairwise and baseline-relative comparison of analysis results.
//!
//! Differences are second-minus-first; percentages are relative to the first
//! (or baseline) value and live on the same fixed-point grid as entropies:
//! a stored percentage `p` stands for `p / ENTROPY_SCALE` percent.
//!
//! The two modes deliberately keep their historical zero-baseline rules:
//! a pairwise percentage is absent when the first entropy is zero, while a
//! baseline percentage defaults to zero when the baseline entropy is zero.

use vstd::prelude::*;
use crate::analysis::FileAnalysis;
use crate::entropy::BYTE_ENTROPY_CAP;
use crate::entropy::ENTROPY_SCALE;

verus! {

/// The change from `base` to `base + delta`, as a percentage of `base`, on
/// the fixed-point grid, rounded toward zero. Meaningful for `base > 0`.
pub open spec fn percent_change_fixed(base: int, delta: int) -> int {
    if delta >= 0 {
        delta * 100 * (ENTROPY_SCALE as int) / base
    } else {
        -((-delta) * 100 * (ENTROPY_SCALE as int) / base)
    }
}

/// Entropy and size deltas between two analyzed files.
#[derive(Clone, Debug)]
pub struct ComparisonResult {
    pub file1: String,
    pub file2: String,
    pub entropy1: Option<u64>,
    pub entropy2: Option<u64>,
    pub entropy_diff: Option<i64>,
    pub entropy_diff_percent: Option<i64>,
    pub size1: u64,
    pub size2: u64,
    pub size_diff: i128,
    pub size_diff_percent: i128,
}

/// One row of a baseline comparison: a file's entropy and its delta against
/// the baseline file's entropy.
#[derive(Clone, Debug)]
pub struct BaselineComparison {
    pub filename: String,
    pub entropy: Option<u64>,
    pub entropy_diff: Option<i64>,
    pub entropy_diff_percent: Option<i64>,
}

/// Signed fixed-point percentage of the change from `e1` to `e2`, relative
/// to `e1`, for entropy values.
fn entropy_percent(e1: u64, e2: u64) -> (p: i64)
    requires
        1 <= e1 <= BYTE_ENTROPY_CAP,
        e2 <= BYTE_ENTROPY_CAP,
    ensures
        p == percent_change_fixed(e1 as int, e2 - e1),
{
    if e2 >= e1 {
        let d = e2 - e1;
        let m = d * 100 * ENTROPY_SCALE / e1;
        proof {
            vstd::arithmetic::div_mod::lemma_div_nonincreasing(
                (d * 100 * ENTROPY_SCALE) as int,
                e1 as int,
            );
        }
        m as i64
    } else {
        let d = e1 - e2;
        let m = d * 100 * ENTROPY_SCALE / e1;
        proof {
            vstd::arithmetic::div_mod::lemma_div_nonincreasing(
                (d * 100 * ENTROPY_SCALE) as int,
                e1 as int,
            );
        }
        -(m as i64)
    }
}

/// Signed fixed-point percentage of the change from `s1` to `s2`, relative
/// to `s1`, for byte sizes.
fn size_percent(s1: u64, s2: u64) -> (p: i128)
    requires
        s1 >= 1,
    ensures
        p == percent_change_fixed(s1 as int, s2 - s1),
{
    if s2 >= s1 {
        let d = (s2 - s1) as u128;
        proof {
            assert(d * 100 * (ENTROPY_SCALE as u128) < 0x1_0000_0000_0000_0000_0000_0000) by (
            nonlinear_arith)
                requires
                    d < 0x1_0000_0000_0000_0000,
                    ENTROPY_SCALE == 65536,
            ;
        }
        let m = d * 100 * (ENTROPY_SCALE as u128) / (s1 as u128);
        proof {
            vstd::arithmetic::div_mod::lemma_div_nonincreasing(
                (d * 100 * (ENTROPY_SCALE as u128)) as int,
                s1 as int,
            );
        }
        m as i128
    } else {
        let d = (s1 - s2) as u128;
        proof {
            assert(d * 100 * (ENTROPY_SCALE as u128) < 0x1_0000_0000_0000_0000_0000_0000) by (
            nonlinear_arith)
                requires
                    d < 0x1_0000_0000_0000_0000,
                    ENTROPY_SCALE == 65536,
            ;
        }
        let m = d * 100 * (ENTROPY_SCALE as u128) / (s1 as u128);
        proof {
            vstd::arithmetic::div_mod::lemma_div_nonincreasing(
                (d * 100 * (ENTROPY_SCALE as u128)) as int,
                s1 as int,
            );
        }
        -(m as i128)
    }
}

/// Compare two analyses pairwise: entropy difference (second minus first)
/// with its percentage relative to the first, and the same for sizes.
///
/// The entropy difference is present exactly when both entropies are; its
/// percentage additionally needs a strictly positive first entropy. The
/// size percentage is zero by convention when the first size is zero.
pub fn compare_files(analysis1: &FileAnalysis, analysis2: &FileAnalysis) -> (r: ComparisonResult)
    requires
        analysis1.wf(),
        analysis2.wf(),
    ensures
        r.file1@ == analysis1.filename@,
        r.file2@ == analysis2.filename@,
        r.entropy1 == analysis1.byte_entropy,
        r.entropy2 == analysis2.byte_entropy,
        r.size1 == analysis1.size_bytes,
        r.size2 == analysis2.size_bytes,
        r.entropy_diff is Some <==> (analysis1.byte_entropy is Some
            && analysis2.byte_entropy is Some),
        r.entropy_diff matches Some(d) ==> d == analysis2.byte_entropy->Some_0
            - analysis1.byte_entropy->Some_0,
        r.entropy_diff_percent is Some <==> (analysis1.byte_entropy is Some
            && analysis2.byte_entropy is Some && analysis1.byte_entropy->Some_0 > 0),
        r.entropy_diff_percent matches Some(p) ==> p == percent_change_fixed(
            analysis1.byte_entropy->Some_0 as int,
            analysis2.byte_entropy->Some_0 - analysis1.byte_entropy->Some_0,
        ),
        r.size_diff == analysis2.size_bytes - analysis1.size_bytes,
        analysis1.size_bytes > 0 ==> r.size_diff_percent == percent_change_fixed(
            analysis1.size_bytes as int,
            analysis2.size_bytes - analysis1.size_bytes,
        ),
        analysis1.size_bytes == 0 ==> r.size_diff_percent == 0,
{
    let entropy1 = analysis1.byte_entropy;
    let entropy2 = analysis2.byte_entropy;
    let mut entropy_diff: Option<i64> = None;
    let mut entropy_diff_percent: Option<i64> = None;
    match (entropy1, entropy2) {
        (Some(e1), Some(e2)) => {
            entropy_diff = Some((e2 as i64) - (e1 as i64));
            if e1 > 0 {
                entropy_diff_percent = Some(entropy_percent(e1, e2));
            }
        },
        _ => {},
    }
    let size_diff: i128 = (analysis2.size_bytes as i128) - (analysis1.size_bytes as i128);
    let size_diff_percent: i128 = if analysis1.size_bytes > 0 {
        size_percent(analysis1.size_bytes, analysis2.size_bytes)
    } else {
        0
    };
    ComparisonResult {
        file1: analysis1.filename.clone(),
        file2: analysis2.filename.clone(),
        entropy1,
        entropy2,
        entropy_diff,
        entropy_diff_percent,
        size1: analysis1.size_bytes,
        size2: analysis2.size_bytes,
        size_diff,
        size_diff_percent,
    }
}

/// What one baseline-comparison row promises about the batch entry it was
/// built from: the entry's own entropy is carried over, and when that
/// entropy is present the row holds its delta against the baseline entropy
/// and the percentage of that delta (zero by convention for a zero
/// baseline). A row for an entry without entropy reports it as unavailable
/// rather than skipping it.
pub open spec fn baseline_row_ok(src: FileAnalysis, base_e: u64, row: BaselineComparison) -> bool {
    &&& row.filename@ == src.filename@
    &&& row.entropy == src.byte_entropy
    &&& row.entropy_diff is Some <==> src.byte_entropy is Some
    &&& row.entropy_diff_percent is Some <==> src.byte_entropy is Some
    &&& (src.byte_entropy matches Some(e) ==> {
        &&& row.entropy_diff == Some((e - base_e) as i64)
        &&& row.entropy_diff_percent == Some(
            if base_e > 0 {
                percent_change_fixed(base_e as int, e - base_e) as i64
            } else {
                0i64
            },
        )
    })
}

/// Compare every entry of a batch against the entry at `baseline_index`.
///
/// Fails exactly when the baseline index is out of range. When the baseline
/// entry has no byte-level entropy, no rows are produced; otherwise there is
/// one row per non-baseline entry, in batch order.
pub fn compare_multiple_files(results: &Vec<FileAnalysis>, baseline_index: usize) -> (r: Result<
    Vec<BaselineComparison>,
    String,
>)
    requires
        forall|i: int| 0 <= i < results@.len() ==> (#[trigger] results@[i]).wf(),
    ensures
        baseline_index >= results@.len() <==> (r is Err),
        r matches Err(e) ==> e@ == "Baseline index out of range"@,
        r matches Ok(rows) ==> {
            let base = results@[baseline_index as int];
            &&& (base.byte_entropy is None ==> rows@.len() == 0)
            &&& (base.byte_entropy matches Some(base_e) ==> {
                &&& rows@.len() == results@.len() - 1
                &&& forall|j: int|
                    0 <= j < rows@.len() ==> baseline_row_ok(
                        results@[if j < baseline_index {
                            j
                        } else {
                            j + 1
                        }],
                        base_e,
                        #[trigger] rows@[j],
                    )
            })
        },
{
    let n = results.len();
    if baseline_index >= n {
        return Err("Baseline index out of range".to_owned());
    }
    let mut rows: Vec<BaselineComparison> = Vec::new();
    let base_entropy = results[baseline_index].byte_entropy;
    match base_entropy {
        None => Ok(rows),
        Some(base_e) => {
            let mut idx: usize = 0;
            while idx < n
                invariant
                    n == results@.len(),
                    baseline_index < n,
                    idx <= n,
                    forall|i: int| 0 <= i < results@.len() ==> (#[trigger] results@[i]).wf(),
                    results@[baseline_index as int].byte_entropy == Some(base_e),
                    base_e <= BYTE_ENTROPY_CAP,
                    rows@.len() == if idx <= baseline_index {
                        idx as int
                    } else {
                        idx - 1
                    },
                    forall|j: int|
                        0 <= j < rows@.len() ==> baseline_row_ok(
                            results@[if j < baseline_index {
                                j
                            } else {
                                j + 1
                            }],
                            base_e,
                            #[trigger] rows@[j],
                        ),
                decreases n - idx,
            {
                if idx != baseline_index {
                    let entry = &results[idx];
                    let mut entropy_diff: Option<i64> = None;
                    let mut entropy_diff_percent: Option<i64> = None;
                    match entry.byte_entropy {
                        Some(e) => {
                            entropy_diff = Some((e as i64) - (base_e as i64));
                            if base_e > 0 {
                                entropy_diff_percent = Some(entropy_percent(base_e, e));
                            } else {
                                entropy_diff_percent = Some(0);
                            }
                        },
                        None => {},
                    }
                    let ghost old_rows = rows@;
                    rows.push(
                        BaselineComparison {
                            filename: entry.filename.clone(),
                            entropy: entry.byte_entropy,
                            entropy_diff,
                            entropy_diff_percent,
                        },
                    );
                    proof {
                        let j = old_rows.len() as int;
                        assert(forall|k: int| 0 <= k < j ==> rows@[k] == old_rows[k]);
                        assert(baseline_row_ok(
                            results@[if j < baseline_index {
                                j
                            } else {
                                j + 1
                            }],
                            base_e,
                            rows@[j],
                        ));
                    }
                }
                idx = idx + 1;
            }
            Ok(rows)
        },
    }
}

} // verus!
