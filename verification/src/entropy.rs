//! Shannon entropy in binary fixed point.
//!
//! An entropy value `e` stands for `e / ENTROPY_SCALE` bits. The calculator
//! works on a frequency table (one count per symbol) and the total count,
//! and never divides by zero: a total of zero yields entropy zero.

use vstd::prelude::*;
use vstd::arithmetic::power2::pow2;
use vstd::arithmetic::power2::lemma_pow2_unfold;
use vstd::arithmetic::power2::lemma_pow2_strictly_increases;
use vstd::arithmetic::power2::lemma2_to64;
use vstd::arithmetic::div_mod::lemma_div_is_ordered;
use vstd::arithmetic::div_mod::lemma_div_multiples_vanish;
use vstd::arithmetic::div_mod::lemma_multiply_divide_lt;
use crate::numeric::seq_sum;
use crate::numeric::lemma_seq_sum_take_succ;
use crate::numeric::lemma_seq_sum_prefix_le;
use crate::numeric::lemma_seq_sum_elem_le;
use crate::numeric::lemma_seq_sum_update;

verus! {

/// The values 1.0 and 2.0 in the internal 32-fractional-bit encoding used
/// while extracting fractional bits of a logarithm, and the same two marks
/// one squaring higher (64 fractional bits).
pub const FP32_ONE: u128 = 0x1_0000_0000;

pub const FP32_TWO: u128 = 0x2_0000_0000;

pub const FP64_ONE: u128 = 0x1_0000_0000_0000_0000;

pub const FP64_TWO: u128 = 0x2_0000_0000_0000_0000;

/// Number of fractional bits kept in an entropy value (ENTROPY_SCALE = 2^16).
pub const FRAC_BITS: u64 = 16;

/// Fixed-size read buffer used by callers that stream a file through the
/// byte counter.
pub const BUFFER_SIZE: usize = 256;

/// One bit of entropy in the fixed-point encoding (2^16).
pub const ENTROPY_SCALE: u64 = 65536;

/// Largest `k` such that `c * 2^k <= n`, for `1 <= c <= n`; zero outside
/// that range.
pub open spec fn log2_floor(n: nat, c: nat) -> nat
    decreases n - c,
{
    if c < 1 || n < 2 * c {
        0
    } else {
        1 + log2_floor(n, 2 * c)
    }
}

/// The first `iters` fractional bits of `log2(x / 2^32)`, for `x` in
/// `[2^32, 2^33)`, read off by repeated squaring: squaring doubles the
/// logarithm, and the integer bit that appears is the next fractional bit.
/// Each division truncates, so the result never exceeds the exact value.
pub open spec fn log2_frac_bits(x: nat, iters: nat) -> nat
    decreases iters,
{
    if iters == 0 {
        0
    } else {
        let y = x * x;
        if y >= FP64_TWO {
            pow2((iters - 1) as nat) + log2_frac_bits(y / FP32_TWO as nat, (iters - 1) as nat)
        } else {
            log2_frac_bits(y / FP32_ONE as nat, (iters - 1) as nat)
        }
    }
}

/// The start value for the fractional-bit extraction: `n / (c * 2^k)` in the
/// 32-fractional-bit encoding, where `k = log2_floor(n, c)`.
pub open spec fn log2_frac_start(n: nat, c: nat) -> nat {
    (n * FP32_ONE / (c * pow2(log2_floor(n, c)) as int)) as nat
}

/// `log2(n / c)` in the fixed-point entropy encoding, rounded down bit by
/// bit, for `1 <= c <= n`; zero outside that range.
pub open spec fn log2_fixed_spec(n: u64, c: u64) -> nat {
    if 1 <= c <= n {
        (log2_floor(n as nat, c as nat) * ENTROPY_SCALE + log2_frac_bits(
            log2_frac_start(n as nat, c as nat),
            FRAC_BITS as nat,
        )) as nat
    } else {
        0
    }
}

proof fn lemma_log2_floor_mul_pow2(n: nat, c: nat)
    requires
        1 <= c <= n,
    ensures
        c * pow2(log2_floor(n, c)) <= n,
        pow2(log2_floor(n, c)) <= n,
    decreases n - c,
{
    let k = log2_floor(n, c);
    if n < 2 * c {
        assert(pow2(0) == 1) by {
            lemma2_to64();
        }
        assert(c * 1 == c);
    } else {
        lemma_log2_floor_mul_pow2(n, 2 * c);
        let k2 = log2_floor(n, 2 * c);
        assert(k == 1 + k2);
        assert(pow2(k) == 2 * pow2(k2)) by {
            lemma_pow2_unfold(k);
        }
        assert(c * (2 * pow2(k2)) == (2 * c) * pow2(k2)) by (nonlinear_arith);
    }
    assert(pow2(k) <= c * pow2(k)) by (nonlinear_arith)
        requires
            c >= 1,
    ;
}

proof fn lemma_log2_floor_bound(n: nat, c: nat)
    requires
        1 <= c <= n,
        n < 0x1_0000_0000_0000_0000,
    ensures
        log2_floor(n, c) <= 63,
{
    let k = log2_floor(n, c);
    lemma_log2_floor_mul_pow2(n, c);
    if k > 63 {
        if k > 64 {
            lemma_pow2_strictly_increases(64, k);
        }
        lemma2_to64();
        assert(pow2(64) == 0x1_0000_0000_0000_0000);
        assert(false);
    }
}

proof fn lemma_log2_frac_bits_bound(x: nat, iters: nat)
    ensures
        log2_frac_bits(x, iters) < pow2(iters),
    decreases iters,
{
    if iters == 0 {
        lemma2_to64();
        assert(pow2(0) == 1);
    } else {
        let y = x * x;
        lemma_pow2_unfold(iters);
        if y >= FP64_TWO {
            lemma_log2_frac_bits_bound(y / FP32_TWO as nat, (iters - 1) as nat);
        } else {
            lemma_log2_frac_bits_bound(y / FP32_ONE as nat, (iters - 1) as nat);
        }
    }
}

/// An upper bound for every value of `log2_fixed_spec`.
pub proof fn lemma_log2_fixed_bound(n: u64, c: u64)
    ensures
        log2_fixed_spec(n, c) < 64 * ENTROPY_SCALE,
{
    if 1 <= c <= n {
        lemma_log2_floor_bound(n as nat, c as nat);
        lemma_log2_frac_bits_bound(log2_frac_start(n as nat, c as nat), FRAC_BITS as nat);
        assert(pow2(16) == 0x10000) by {
            lemma2_to64();
        }
        assert(log2_floor(n as nat, c as nat) * ENTROPY_SCALE <= 63 * ENTROPY_SCALE) by (
        nonlinear_arith)
            requires
                log2_floor(n as nat, c as nat) <= 63,
        ;
    }
}

/// `log2(n / c)` in the fixed-point entropy encoding, rounded down.
fn log2_fixed(n: u64, c: u64) -> (r: u64)
    requires
        1 <= c <= n,
    ensures
        r == log2_fixed_spec(n, c),
        r < 64 * ENTROPY_SCALE,
{
    let mut k: u64 = 0;
    let mut m: u64 = c;
    proof {
        lemma2_to64();
        assert(c * pow2(0) == c) by (nonlinear_arith)
            requires
                pow2(0) == 1,
        ;
    }
    while m <= n / 2
        invariant
            1 <= c <= n,
            m == c * pow2(k as nat),
            1 <= m,
            pow2(k as nat) <= m <= n,
            log2_floor(n as nat, c as nat) == k + log2_floor(n as nat, m as nat),
        decreases n - m,
    {
        proof {
            assert(2 * m <= n);
            assert(m >= 1);
            assert(log2_floor(n as nat, m as nat) == 1 + log2_floor(n as nat, 2 * m as nat));
            lemma_pow2_unfold((k + 1) as nat);
            assert(c * (2 * pow2(k as nat)) == 2 * (c * pow2(k as nat))) by (nonlinear_arith);
            lemma_log2_floor_bound(n as nat, c as nat);
        }
        m = m * 2;
        k = k + 1;
    }
    proof {
        assert(n < 2 * m);
        assert(log2_floor(n as nat, m as nat) == 0);
        assert(log2_floor(n as nat, c as nat) == k);
        lemma_log2_floor_bound(n as nat, c as nat);
    }
    let num: u128 = (n as u128) * (FP32_ONE as u128);
    let mut x: u128 = num / (m as u128);
    proof {
        assert(m * FP32_ONE <= n * FP32_ONE) by (nonlinear_arith)
            requires
                m <= n,
        ;
        lemma_div_is_ordered(m as int * FP32_ONE, n as int * FP32_ONE, m as int);
        lemma_div_multiples_vanish(FP32_ONE as int, m as int);
        assert(x >= FP32_ONE);
        assert(n * FP32_ONE < m * FP32_TWO) by (nonlinear_arith)
            requires
                n < 2 * m,
                FP32_TWO == 2 * FP32_ONE,
        ;
        lemma_multiply_divide_lt(n as int * FP32_ONE, m as int, FP32_TWO as int);
        assert(x < FP32_TWO);
    }
    let ghost x0 = x as nat;
    let mut frac: u64 = 0;
    let mut j: u64 = 0;
    while j < FRAC_BITS
        invariant
            FP32_ONE <= x < FP32_TWO,
            j <= FRAC_BITS,
            frac < pow2(j as nat),
            frac * pow2((FRAC_BITS - j) as nat) + log2_frac_bits(x as nat, (FRAC_BITS - j) as nat)
                == log2_frac_bits(x0, FRAC_BITS as nat),
        decreases FRAC_BITS - j,
    {
        proof {
            assert(x * x < FP32_TWO * FP32_TWO) by (nonlinear_arith)
                requires
                    x < FP32_TWO,
            ;
            lemma2_to64();
            if j < FRAC_BITS {
                lemma_pow2_strictly_increases(j as nat, FRAC_BITS as nat);
            }
            assert(frac < 0x10000);
            lemma_pow2_unfold((j + 1) as nat);
        }
        let y: u128 = x * x;
        proof {
            assert(y < FP32_TWO * FP32_TWO) by (nonlinear_arith)
                requires
                    x < FP32_TWO,
                    y == x * x,
            ;
            assert(y >= FP32_ONE * FP32_ONE) by (nonlinear_arith)
                requires
                    x >= FP32_ONE,
                    y == x * x,
            ;
            let rem = (FRAC_BITS - j) as nat;
            lemma_pow2_unfold(rem);
            lemma_pow2_unfold(j as nat + 1);
            assert(log2_frac_bits(x as nat, rem) == if y >= FP64_TWO {
                pow2((rem - 1) as nat) + log2_frac_bits(y as nat / FP32_TWO as nat, (rem - 1) as nat)
            } else {
                log2_frac_bits(y as nat / FP32_ONE as nat, (rem - 1) as nat)
            });
        }
        if y >= FP64_TWO {
            proof {
                let rem = (FRAC_BITS - j) as nat;
                assert((frac * 2 + 1) * pow2((rem - 1) as nat) == frac * (2 * pow2(
                    (rem - 1) as nat,
                )) + pow2((rem - 1) as nat)) by (nonlinear_arith);
                assert(FP64_TWO == FP32_TWO * FP32_ONE) by (nonlinear_arith);
                lemma_div_is_ordered(FP64_TWO as int, y as int, FP32_TWO as int);
                lemma_div_multiples_vanish(FP32_ONE as int, FP32_TWO as int);
                lemma_multiply_divide_lt(y as int, FP32_TWO as int, FP32_TWO as int);
            }
            frac = frac * 2 + 1;
            x = y / (FP32_TWO as u128);
        } else {
            proof {
                let rem = (FRAC_BITS - j) as nat;
                assert((frac * 2) * pow2((rem - 1) as nat) == frac * (2 * pow2((rem - 1) as nat)))
                    by (nonlinear_arith);
                assert(FP64_ONE == FP32_ONE * FP32_ONE) by (nonlinear_arith);
                assert(FP64_TWO == FP32_ONE * FP32_TWO) by (nonlinear_arith);
                lemma_div_is_ordered(FP64_ONE as int, y as int, FP32_ONE as int);
                lemma_div_multiples_vanish(FP32_ONE as int, FP32_ONE as int);
                lemma_multiply_divide_lt(y as int, FP32_ONE as int, FP32_TWO as int);
            }
            frac = frac * 2;
            x = y / (FP32_ONE as u128);
        }
        j = j + 1;
    }
    proof {
        assert(pow2(0) == 1 && pow2(16) == 0x10000) by {
            lemma2_to64();
        }
        assert((FRAC_BITS - j) as nat == 0);
        assert(log2_frac_bits(x as nat, 0) == 0);
        assert(frac * pow2(0) == frac);
        assert(frac == log2_frac_bits(x0, FRAC_BITS as nat));
        assert(x0 == log2_frac_start(n as nat, c as nat));
        assert(k * ENTROPY_SCALE <= 63 * ENTROPY_SCALE) by (nonlinear_arith)
            requires
                k <= 63,
        ;
    }
    k * ENTROPY_SCALE + frac
}

/// Sum over the table of `count * log2_fixed_spec(total, count)`: the
/// numerator of the Shannon entropy formula, scaled by `total`. Entries with
/// count zero contribute nothing, which excludes the `0 * log2(0)` terms.
pub open spec fn weighted_log_sum(counts: Seq<u64>, total: u64) -> nat
    decreases counts.len(),
{
    if counts.len() == 0 {
        0
    } else {
        (weighted_log_sum(counts.drop_last(), total) + counts.last() * log2_fixed_spec(
            total,
            counts.last(),
        )) as nat
    }
}

/// Entropy of a frequency table in the fixed-point encoding: the weighted
/// log sum divided by the total count, saturated at `cap` (the capacity of
/// the alphabet, which the exact entropy can never exceed), and zero for an
/// empty table.
pub open spec fn entropy_fixed(counts: Seq<u64>, total: u64, cap: u64) -> u64 {
    if total == 0 {
        0
    } else {
        let h = weighted_log_sum(counts, total) / total as nat;
        if h > cap {
            cap
        } else {
            h as u64
        }
    }
}

/// Largest possible byte-level entropy: 8 bits, for the 256-symbol alphabet.
pub const BYTE_ENTROPY_CAP: u64 = 8 * ENTROPY_SCALE;

/// Largest possible bit-level entropy: log2(9) bits rounded down to the
/// fixed-point grid, for the 9 popcount buckets.
pub const BIT_ENTROPY_CAP: u64 = 207744;

/// Byte-level entropy of a 256-entry frequency table, in fixed point.
pub open spec fn byte_entropy_fixed(counts: Seq<u64>, total: u64) -> u64 {
    entropy_fixed(counts, total, BYTE_ENTROPY_CAP)
}

/// Count of `counts` entries at indices below `i` whose popcount is `b`.
pub open spec fn bucket_sum(counts: Seq<u64>, b: u8, i: int) -> nat
    decreases i,
{
    if i <= 0 || i > counts.len() {
        0
    } else {
        bucket_sum(counts, b, i - 1) + if spec_count_bits((i - 1) as u8) == b {
            counts[i - 1] as nat
        } else {
            0nat
        }
    }
}

/// The nine popcount buckets of a 256-entry byte frequency table.
pub open spec fn bit_buckets(counts: Seq<u64>) -> Seq<u64> {
    Seq::new(9, |b: int| bucket_sum(counts, b as u8, 256) as u64)
}

/// Bit-level entropy of a 256-entry frequency table: byte counts are pooled
/// into nine buckets by popcount, and the same entropy formula is applied to
/// the buckets.
pub open spec fn bit_entropy_fixed(counts: Seq<u64>, total: u64) -> u64 {
    entropy_fixed(bit_buckets(counts), total, BIT_ENTROPY_CAP)
}

proof fn lemma_weighted_log_sum_take_succ(counts: Seq<u64>, total: u64, i: int)
    requires
        0 <= i < counts.len(),
    ensures
        weighted_log_sum(counts.take(i + 1), total) == weighted_log_sum(counts.take(i), total)
            + counts[i] * log2_fixed_spec(total, counts[i]),
{
    assert(counts.take(i + 1).drop_last() =~= counts.take(i));
    assert(counts.take(i + 1).last() == counts[i]);
}

/// Shared core of the two entropy calculators: entropy of one frequency
/// table over its own alphabet, saturated at the alphabet capacity `cap`.
fn entropy_from_table(counts: &Vec<u64>, total: u64, cap: u64) -> (r: u64)
    requires
        seq_sum(counts@) == total,
    ensures
        r == entropy_fixed(counts@, total, cap),
        r <= cap,
        total == 0 ==> r == 0,
{
    if total == 0 {
        return 0;
    }
    let n = counts.len();
    let mut acc: u128 = 0;
    let mut i: usize = 0;
    while i < n
        invariant
            n == counts@.len(),
            i <= n,
            total > 0,
            seq_sum(counts@) == total,
            acc == weighted_log_sum(counts@.take(i as int), total),
            acc <= seq_sum(counts@.take(i as int)) * 4194304,
        decreases n - i,
    {
        let c = counts[i];
        proof {
            lemma_seq_sum_take_succ(counts@, i as int);
            lemma_seq_sum_prefix_le(counts@, i as int + 1);
            lemma_seq_sum_elem_le(counts@, i as int);
            lemma_weighted_log_sum_take_succ(counts@, total, i as int);
            lemma_log2_fixed_bound(total, c);
            assert(c * log2_fixed_spec(total, c) <= c * 4194304) by (nonlinear_arith)
                requires
                    log2_fixed_spec(total, c) <= 4194304,
            ;
            assert(64 * ENTROPY_SCALE == 4194304);
            assert(seq_sum(counts@.take(i as int + 1)) * 4194304 <= seq_sum(counts@) * 4194304) by (
            nonlinear_arith)
                requires
                    seq_sum(counts@.take(i as int + 1)) <= seq_sum(counts@),
            ;
            assert(seq_sum(counts@) * 4194304 <= 0xffff_ffff_ffff_ffffu64 * 4194304) by (
            nonlinear_arith)
                requires
                    seq_sum(counts@) <= 0xffff_ffff_ffff_ffffu64,
            ;
        }
        if c > 0 {
            let l = log2_fixed(total, c);
            acc = acc + (c as u128) * (l as u128);
        } else {
            proof {
                assert(c * log2_fixed_spec(total, c) == 0);
            }
        }
        i = i + 1;
    }
    proof {
        assert(counts@.take(n as int) =~= counts@);
    }
    let h = acc / (total as u128);
    if h > cap as u128 {
        cap
    } else {
        h as u64
    }
}

/// Shannon entropy over the 256-symbol byte alphabet, in fixed point.
///
/// The table must be consistent: its entries sum to `total_bytes`. The
/// result is the fixed-point value `byte_entropy_fixed`, never above 8 bits,
/// and zero for an empty input.
pub fn calculate_byte_level_entropy(counts: &Vec<u64>, total_bytes: u64) -> (r: u64)
    requires
        counts@.len() == 256,
        seq_sum(counts@) == total_bytes,
    ensures
        r == byte_entropy_fixed(counts@, total_bytes),
        r <= BYTE_ENTROPY_CAP,
        total_bytes == 0 ==> r == 0,
{
    entropy_from_table(counts, total_bytes, BYTE_ENTROPY_CAP)
}

/// Shannon entropy over the 9-bucket popcount alphabet, in fixed point.
///
/// Byte counts are pooled by their number of set bits, and entropy is
/// computed over the nine pooled counts; the result never exceeds log2(9)
/// bits, and is zero for an empty input.
pub fn calculate_bit_level_entropy(counts: &Vec<u64>, total_bytes: u64) -> (r: u64)
    requires
        counts@.len() == 256,
        seq_sum(counts@) == total_bytes,
    ensures
        r == bit_entropy_fixed(counts@, total_bytes),
        r <= BIT_ENTROPY_CAP,
        total_bytes == 0 ==> r == 0,
{
    let mut buckets: Vec<u64> = Vec::new();
    let mut b: usize = 0;
    while b < 9
        invariant
            buckets@.len() == b,
            b <= 9,
            forall|p: int| 0 <= p < b ==> buckets@[p] == 0,
            seq_sum(buckets@) == 0,
        decreases 9 - b,
    {
        proof {
            assert(buckets@.push(0u64).drop_last() =~= buckets@);
        }
        buckets.push(0);
        b = b + 1;
    }
    let mut i: usize = 0;
    while i < 256
        invariant
            buckets@.len() == 9,
            counts@.len() == 256,
            seq_sum(counts@) == total_bytes,
            i <= 256,
            forall|p: int| 0 <= p < 9 ==> buckets@[p] == bucket_sum(counts@, p as u8, i as int),
            seq_sum(buckets@) == seq_sum(counts@.take(i as int)),
        decreases 256 - i,
    {
        let c = counts[i];
        let pc = count_bits_set(i as u8) as usize;
        proof {
            lemma_seq_sum_take_succ(counts@, i as int);
            lemma_seq_sum_prefix_le(counts@, i as int + 1);
            lemma_seq_sum_elem_le(buckets@, pc as int);
        }
        let nb = buckets[pc] + c;
        let ghost old_buckets = buckets@;
        buckets[pc] = nb;
        proof {
            lemma_seq_sum_update(old_buckets, pc as int, nb);
            assert(forall|p: int|
                0 <= p < 9 ==> #[trigger] bucket_sum(counts@, p as u8, i as int + 1) == bucket_sum(
                    counts@,
                    p as u8,
                    i as int,
                ) + if spec_count_bits(i as u8) == p as u8 {
                    counts@[i as int] as nat
                } else {
                    0nat
                });
        }
        i = i + 1;
    }
    proof {
        assert(counts@.take(256) =~= counts@);
        assert(buckets@ =~= bit_buckets(counts@));
    }
    entropy_from_table(&buckets, total_bytes, BIT_ENTROPY_CAP)
}

proof fn lemma_log2_floor_exact(c: nat, k: nat)
    requires
        1 <= c,
    ensures
        log2_floor(c * pow2(k), c) == k,
    decreases k,
{
    if k == 0 {
        lemma2_to64();
        assert(c * pow2(0) == c) by (nonlinear_arith)
            requires
                pow2(0) == 1,
        ;
    } else {
        lemma_log2_floor_exact(2 * c, (k - 1) as nat);
        lemma_pow2_unfold(k);
        assert(c * pow2(k) == (2 * c) * pow2((k - 1) as nat)) by (nonlinear_arith)
            requires
                pow2(k) == 2 * pow2((k - 1) as nat),
        ;
        assert(pow2((k - 1) as nat) >= 1) by {
            vstd::arithmetic::power2::lemma_pow2_pos((k - 1) as nat);
        }
        assert((2 * c) * pow2((k - 1) as nat) >= 2 * c) by (nonlinear_arith)
            requires
                pow2((k - 1) as nat) >= 1,
                c >= 1,
        ;
    }
}

proof fn lemma_log2_frac_bits_one(iters: nat)
    ensures
        log2_frac_bits(FP32_ONE as nat, iters) == 0,
    decreases iters,
{
    if iters > 0 {
        assert(FP32_ONE * FP32_ONE == FP64_ONE) by (nonlinear_arith);
        lemma_div_multiples_vanish(FP32_ONE as int, FP32_ONE as int);
        lemma_log2_frac_bits_one((iters - 1) as nat);
    }
}

/// On an exact power of two ratio the fixed-point logarithm is exact:
/// `log2((c * 2^k) / c) == k`.
pub proof fn lemma_log2_fixed_exact_pow2(n: u64, c: u64, k: nat)
    requires
        1 <= c,
        n == c * pow2(k),
    ensures
        log2_fixed_spec(n, c) == k * ENTROPY_SCALE,
{
    vstd::arithmetic::power2::lemma_pow2_pos(k);
    assert(n >= c) by (nonlinear_arith)
        requires
            n == c * pow2(k),
            pow2(k) >= 1,
            c >= 1,
    ;
    lemma_log2_floor_exact(c as nat, k);
    assert(log2_floor(n as nat, c as nat) == k);
    assert(c * pow2(k) == n);
    lemma_div_multiples_vanish(FP32_ONE as int, n as int);
    assert(n * FP32_ONE == FP32_ONE * n) by (nonlinear_arith);
    assert(log2_frac_start(n as nat, c as nat) == FP32_ONE);
    lemma_log2_frac_bits_one(FRAC_BITS as nat);
}

proof fn lemma_uniform_weighted_prefix(counts: Seq<u64>, total: u64, m: u64, k: nat, i: int)
    requires
        0 <= i <= counts.len(),
        1 <= m <= total,
        forall|j: int| 0 <= j < counts.len() ==> counts[j] == m || counts[j] == 0,
        log2_fixed_spec(total, m) == k * ENTROPY_SCALE,
    ensures
        weighted_log_sum(counts.take(i), total) == seq_sum(counts.take(i)) * (k * ENTROPY_SCALE),
    decreases i,
{
    if i == 0 {
        assert(counts.take(0) =~= Seq::<u64>::empty());
        assert(weighted_log_sum(counts.take(0), total) == 0);
        assert(seq_sum(counts.take(0)) == 0);
        assert(0nat * (k * ENTROPY_SCALE) == 0) by (nonlinear_arith);
    } else {
        lemma_uniform_weighted_prefix(counts, total, m, k, i - 1);
        lemma_weighted_log_sum_take_succ(counts, total, i - 1);
        lemma_seq_sum_take_succ(counts, i - 1);
        let c = counts[i - 1];
        let w0 = weighted_log_sum(counts.take(i - 1), total);
        let s0 = seq_sum(counts.take(i - 1));
        assert(w0 == s0 * (k * ENTROPY_SCALE));
        if c == m {
            assert(weighted_log_sum(counts.take(i), total) == w0 + m * (k * ENTROPY_SCALE));
            assert(seq_sum(counts.take(i)) == s0 + m);
            assert((s0 + m) * (k * ENTROPY_SCALE) == s0 * (k * ENTROPY_SCALE) + m * (k
                * ENTROPY_SCALE)) by (nonlinear_arith);
        } else {
            assert(c == 0);
            assert(c * log2_fixed_spec(total, c) == 0);
            assert(weighted_log_sum(counts.take(i), total) == w0);
            assert(seq_sum(counts.take(i)) == s0);
        }
    }
}

/// A 256-entry frequency table in which every nonzero entry
/// holds the same count `m`, with a total of `m * 2^k` for some `k <= 8`,
/// has byte-level entropy of exactly `k` bits. In particular a table with a
/// single nonzero symbol (`k == 0`) has entropy exactly zero, and a table
/// with all 256 symbols equally represented (`k == 8`) has entropy exactly
/// 8 bits.
pub proof fn lemma_uniform_table_entropy(counts: Seq<u64>, total: u64, m: u64, k: nat)
    requires
        counts.len() == 256,
        1 <= m,
        k <= 8,
        forall|j: int| 0 <= j < counts.len() ==> counts[j] == m || counts[j] == 0,
        seq_sum(counts) == total,
        total == m * pow2(k),
    ensures
        byte_entropy_fixed(counts, total) == k * ENTROPY_SCALE,
{
    vstd::arithmetic::power2::lemma_pow2_pos(k);
    assert(total >= m) by (nonlinear_arith)
        requires
            total == m * pow2(k),
            pow2(k) >= 1,
            m >= 1,
    ;
    lemma_log2_fixed_exact_pow2(total, m, k);
    lemma_uniform_weighted_prefix(counts, total, m, k, 256);
    assert(counts.take(256) =~= counts);
    assert(weighted_log_sum(counts, total) == total * (k * ENTROPY_SCALE));
    lemma_div_multiples_vanish(k * ENTROPY_SCALE as int, total as int);
    assert(total * (k * ENTROPY_SCALE) == (total as int) * (k * ENTROPY_SCALE as int)) by (
    nonlinear_arith);
    assert(weighted_log_sum(counts, total) / total as nat == k * ENTROPY_SCALE);
    assert(k * ENTROPY_SCALE <= 8 * ENTROPY_SCALE) by (nonlinear_arith)
        requires
            k <= 8,
    ;
}

/// Number of occurrences of `v` in `s`.
pub open spec fn count_of(s: Seq<u8>, v: u8) -> nat
    decreases s.len(),
{
    if s.len() == 0 {
        0
    } else {
        count_of(s.drop_last(), v) + if s.last() == v {
            1nat
        } else {
            0nat
        }
    }
}

/// Number of bits set in `b`, written as the sum of its eight bit positions.
pub open spec fn spec_count_bits(b: u8) -> u8 {
    ((b & 1) + ((b >> 1) & 1) + ((b >> 2) & 1) + ((b >> 3) & 1) + ((b >> 4) & 1) + ((b >> 5) & 1)
        + ((b >> 6) & 1) + ((b >> 7) & 1)) as u8
}

/// How many of the eight bits of `byte` are set.
pub fn count_bits_set(byte: u8) -> (r: u8)
    ensures
        r == spec_count_bits(byte),
        r <= 8,
{
    proof {
        assert(((byte & 1) + ((byte >> 1) & 1) + ((byte >> 2) & 1) + ((byte >> 3) & 1) + ((byte
            >> 4) & 1) + ((byte >> 5) & 1) + ((byte >> 6) & 1) + ((byte >> 7) & 1)) <= 8)
            by (bit_vector);
    }
    (byte & 1) + ((byte >> 1) & 1) + ((byte >> 2) & 1) + ((byte >> 3) & 1) + ((byte >> 4) & 1) + ((
    byte >> 5) & 1) + ((byte >> 6) & 1) + ((byte >> 7) & 1)
}

} // verus!
