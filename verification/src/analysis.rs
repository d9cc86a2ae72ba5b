//! Per-file analysis: streaming byte counting, whole-file entropy in either
//! mode, and sliding-window entropy.
//!
//! I/O stays outside this crate: callers open and read files, feed the bytes
//! through a `ByteCounter` (or hand over the whole contents), and receive a
//! `FileAnalysis`. Failures of the reading layer enter through the error
//! constructors, so that every `FileAnalysis` obeys the same invariant:
//! an error is recorded exactly when no entropy value is present.

use vstd::prelude::*;
use crate::entropy::BIT_ENTROPY_CAP;
use crate::entropy::BYTE_ENTROPY_CAP;
use crate::entropy::bit_entropy_fixed;
use crate::entropy::byte_entropy_fixed;
use crate::entropy::calculate_bit_level_entropy;
use crate::entropy::calculate_byte_level_entropy;
use crate::entropy::count_of;
use vstd::arithmetic::power2::pow2;
use crate::numeric::seq_sum;
use crate::numeric::lemma_seq_sum_elem_le;
use crate::numeric::lemma_seq_sum_take_succ;
use crate::numeric::lemma_seq_sum_update;

verus! {

/// Which entropy a whole-file analysis computes.
#[derive(Clone, Copy, Debug, PartialEq, Eq, Structural)]
pub enum EntropyMode {
    ByteLevel,
    BitLevel,
}

/// Result of analyzing one file.
#[derive(Clone, Debug)]
pub struct FileAnalysis {
    pub filename: String,
    pub size_bytes: u64,
    pub byte_entropy: Option<u64>,
    pub bit_entropy: Option<u64>,
    pub error: Option<String>,
}

impl FileAnalysis {
    /// The invariant every analysis obeys: an error is present exactly when
    /// both entropy fields are absent, at most one entropy mode is filled,
    /// and a present entropy value lies within its alphabet's capacity.
    pub open spec fn wf(self) -> bool {
        &&& (self.error is Some <==> (self.byte_entropy is None && self.bit_entropy is None))
        &&& !(self.byte_entropy is Some && self.bit_entropy is Some)
        &&& (self.byte_entropy matches Some(e) ==> e <= BYTE_ENTROPY_CAP)
        &&& (self.bit_entropy matches Some(e) ==> e <= BIT_ENTROPY_CAP)
    }
}

/// One window of a sliding-window analysis: its byte offset in the file,
/// its size in bytes, and its byte-level entropy.
#[derive(Clone, Debug)]
pub struct SlidingWindowResult {
    pub position: u64,
    pub chunk_size: u64,
    pub entropy: u64,
}

/// A 256-bin frequency table together with the running total, filled by
/// streaming chunks of bytes through it.
pub struct ByteCounter {
    pub counts: Vec<u64>,
    pub total: u64,
}

impl ByteCounter {
    /// The table has one bin per byte value and the total equals the sum of
    /// the bins.
    pub open spec fn wf(self) -> bool {
        self.counts@.len() == 256 && self.total == seq_sum(self.counts@)
    }

    /// A fresh counter: every bin zero, total zero.
    pub fn new() -> (r: ByteCounter)
        ensures
            r.wf(),
            r.total == 0,
            forall|v: int| 0 <= v < 256 ==> r.counts@[v] == 0,
    {
        let mut counts: Vec<u64> = Vec::new();
        let mut i: usize = 0;
        while i < 256
            invariant
                counts@.len() == i,
                i <= 256,
                forall|v: int| 0 <= v < i ==> counts@[v] == 0,
                seq_sum(counts@) == 0,
            decreases 256 - i,
        {
            proof {
                assert(counts@.push(0u64).drop_last() =~= counts@);
            }
            counts.push(0);
            i = i + 1;
        }
        ByteCounter { counts, total: 0 }
    }

    /// Record one byte.
    pub fn add_byte(&mut self, b: u8)
        requires
            old(self).wf(),
            old(self).total < u64::MAX,
        ensures
            final (self).wf(),
            final (self).total == old(self).total + 1,
            forall|v: u8|
                final (self).counts@[v as int] == old(self).counts@[v as int] + (if v == b {
                    1nat
                } else {
                    0nat
                }),
    {
        let idx = b as usize;
        proof {
            lemma_seq_sum_elem_le(self.counts@, idx as int);
        }
        let nc = self.counts[idx] + 1;
        let ghost before = self.counts@;
        self.counts[idx] = nc;
        proof {
            lemma_seq_sum_update(before, idx as int, nc);
        }
        self.total = self.total + 1;
    }

    /// Record a chunk of bytes: each bin grows by the number of occurrences
    /// of its byte value in the chunk. Merging chunks this way is order-
    /// independent, so a file may be streamed through in reads of any size.
    pub fn add_chunk(&mut self, chunk: &[u8])
        requires
            old(self).wf(),
            old(self).total + chunk@.len() <= u64::MAX,
        ensures
            final (self).wf(),
            final (self).total == old(self).total + chunk@.len(),
            forall|v: u8|
                final (self).counts@[v as int] == old(self).counts@[v as int] + count_of(chunk@, v),
    {
        let n = chunk.len();
        let mut i: usize = 0;
        while i < n
            invariant
                n == chunk@.len(),
                i <= n,
                self.wf(),
                self.total == old(self).total + i,
                old(self).total + n <= u64::MAX,
                forall|v: u8|
                    self.counts@[v as int] == old(self).counts@[v as int] + count_of(
                        chunk@.take(i as int),
                        v,
                    ),
            decreases n - i,
        {
            let b = chunk[i];
            self.add_byte(b);
            proof {
                assert forall|v: u8|
                    count_of(chunk@.take(i as int + 1), v) == count_of(chunk@.take(i as int), v)
                        + (if chunk@[i as int] == v {
                        1nat
                    } else {
                        0nat
                    }) by {
                    assert(chunk@.take(i as int + 1).drop_last() =~= chunk@.take(i as int));
                    assert(chunk@.take(i as int + 1).last() == chunk@[i as int]);
                }
            }
            i = i + 1;
        }
        proof {
            assert(chunk@.take(n as int) =~= chunk@);
        }
    }
}

/// The frequency table of a byte sequence: one bin per byte value.
pub open spec fn data_counts(data: Seq<u8>) -> Seq<u64> {
    Seq::new(256, |v: int| count_of(data, v as u8) as u64)
}

/// Byte-level entropy of a byte sequence, in fixed point.
pub open spec fn byte_entropy_of(data: Seq<u8>) -> u64 {
    byte_entropy_fixed(data_counts(data), data.len() as u64)
}

/// Bit-level entropy of a byte sequence, in fixed point.
pub open spec fn bit_entropy_of(data: Seq<u8>) -> u64 {
    bit_entropy_fixed(data_counts(data), data.len() as u64)
}

/// Count the bytes of `data[start..start + size]` into a fresh counter.
fn count_range(data: &Vec<u8>, start: usize, size: usize) -> (r: ByteCounter)
    requires
        start + size <= data@.len(),
        size <= u64::MAX,
    ensures
        r.wf(),
        r.total == size,
        r.counts@ =~= data_counts(data@.subrange(start as int, start as int + size as int)),
{
    let mut counter = ByteCounter::new();
    let data_len = data.len();
    let mut j: usize = 0;
    while j < size
        invariant
            start + size <= data@.len(),
            data@.len() == data_len,
            size <= u64::MAX,
            j <= size,
            counter.wf(),
            counter.total == j,
            forall|v: u8|
                counter.counts@[v as int] == count_of(
                    data@.subrange(start as int, start as int + j as int),
                    v,
                ),
        decreases size - j,
    {
        counter.add_byte(data[start + j]);
        proof {
            let sub0 = data@.subrange(start as int, start as int + j as int);
            let sub1 = data@.subrange(start as int, start as int + j as int + 1);
            assert forall|v: u8|
                count_of(sub1, v) == count_of(sub0, v) + (if data@[start as int + j as int] == v {
                    1nat
                } else {
                    0nat
                }) by {
                assert(sub1.drop_last() =~= sub0);
                assert(sub1.last() == data@[start as int + j as int]);
            }
        }
        j = j + 1;
    }
    proof {
        let sub = data@.subrange(start as int, start as int + size as int);
        assert forall|v: int| 0 <= v < 256 implies counter.counts@[v] == data_counts(sub)[v] by {
            assert(counter.counts@[v] == count_of(sub, v as u8));
        }
    }
    counter
}

/// Finish a streamed analysis: turn a filled counter into a `FileAnalysis`.
///
/// An empty stream is an explicit error, never an entropy of zero; otherwise
/// exactly the entropy named by `mode` is computed from the table.
pub fn analyze_counts(filename: String, counter: &ByteCounter, mode: EntropyMode) -> (r:
    FileAnalysis)
    requires
        counter.wf(),
    ensures
        r.wf(),
        r.filename@ == filename@,
        counter.total == 0 ==> {
            &&& r.size_bytes == 0
            &&& r.byte_entropy is None
            &&& r.bit_entropy is None
            &&& (r.error matches Some(m) && m@ == "File is empty"@)
        },
        counter.total > 0 ==> {
            &&& r.size_bytes == counter.total
            &&& r.error is None
            &&& (mode is ByteLevel ==> r.byte_entropy == Some(
                byte_entropy_fixed(counter.counts@, counter.total),
            ) && r.bit_entropy is None)
            &&& (mode is BitLevel ==> r.bit_entropy == Some(
                bit_entropy_fixed(counter.counts@, counter.total),
            ) && r.byte_entropy is None)
        },
{
    if counter.total == 0 {
        return FileAnalysis {
            filename,
            size_bytes: 0,
            byte_entropy: None,
            bit_entropy: None,
            error: Some("File is empty".to_owned()),
        };
    }
    match mode {
        EntropyMode::ByteLevel => {
            let e = calculate_byte_level_entropy(&counter.counts, counter.total);
            FileAnalysis {
                filename,
                size_bytes: counter.total,
                byte_entropy: Some(e),
                bit_entropy: None,
                error: None,
            }
        },
        EntropyMode::BitLevel => {
            let e = calculate_bit_level_entropy(&counter.counts, counter.total);
            FileAnalysis {
                filename,
                size_bytes: counter.total,
                byte_entropy: None,
                bit_entropy: Some(e),
                error: None,
            }
        },
    }
}

/// Analyze a whole in-memory byte sequence in the given mode.
pub fn analyze_data(filename: String, data: &Vec<u8>, mode: EntropyMode) -> (r: FileAnalysis)
    ensures
        r.wf(),
        r.filename@ == filename@,
        data@.len() == 0 ==> {
            &&& r.size_bytes == 0
            &&& r.byte_entropy is None
            &&& r.bit_entropy is None
            &&& (r.error matches Some(m) && m@ == "File is empty"@)
        },
        data@.len() > 0 ==> {
            &&& r.size_bytes == data@.len()
            &&& r.error is None
            &&& (mode is ByteLevel ==> r.byte_entropy == Some(byte_entropy_of(data@))
                && r.bit_entropy is None)
            &&& (mode is BitLevel ==> r.bit_entropy == Some(bit_entropy_of(data@))
                && r.byte_entropy is None)
        },
{
    let counter = count_range(data, 0, data.len());
    proof {
        assert(data@.subrange(0, data@.len() as int) =~= data@);
    }
    analyze_counts(filename, &counter, mode)
}

/// An analysis recording that the file could not be opened: zero size and
/// the reading layer's message.
pub fn analysis_open_error(filename: String, message: String) -> (r: FileAnalysis)
    ensures
        r.wf(),
        r.filename@ == filename@,
        r.size_bytes == 0,
        r.byte_entropy is None,
        r.bit_entropy is None,
        r.error matches Some(m) && m@ == message@,
{
    FileAnalysis { filename, size_bytes: 0, byte_entropy: None, bit_entropy: None, error: Some(
        message,
    ) }
}

/// An analysis recording a failure part way through reading: the bytes
/// accumulated before the failure are reported, not discarded.
pub fn analysis_read_error(filename: String, bytes_so_far: u64, message: String) -> (r:
    FileAnalysis)
    ensures
        r.wf(),
        r.filename@ == filename@,
        r.size_bytes == bytes_so_far,
        r.byte_entropy is None,
        r.bit_entropy is None,
        r.error matches Some(m) && m@ == message@,
{
    FileAnalysis {
        filename,
        size_bytes: bytes_so_far,
        byte_entropy: None,
        bit_entropy: None,
        error: Some(message),
    }
}

/// Ceiling division, for a positive divisor.
pub open spec fn ceil_div(s: int, w: int) -> int {
    (s + w - 1) / w
}

/// What one entry of a sliding-window analysis promises: window `i` starts
/// at offset `i * w`, spans a full window unless it is the trailing
/// remainder, and carries the byte-level entropy of exactly that span.
pub open spec fn window_ok(data: Seq<u8>, w: int, i: int, r: SlidingWindowResult) -> bool {
    let s = data.len() as int;
    &&& r.position == i * w
    &&& r.chunk_size == (if (i + 1) * w <= s {
        w
    } else {
        s - i * w
    })
    &&& r.entropy == byte_entropy_of(data.subrange(i * w, i * w + r.chunk_size as int))
    &&& r.entropy <= BYTE_ENTROPY_CAP
}

/// Partition `data` into consecutive non-overlapping windows of
/// `window_size` bytes and compute the byte-level entropy of each.
///
/// A window size of zero and an empty input are rejected with the
/// corresponding error. Otherwise the result holds `ceil(len / window_size)`
/// windows: all of the requested size, except that a nonzero trailing
/// remainder is emitted as one final shorter window, never padded and never
/// dropped.
pub fn analyze_sliding_window(data: &Vec<u8>, window_size: u64) -> (r: Result<
    Vec<SlidingWindowResult>,
    String,
>)
    ensures
        window_size == 0 ==> (r matches Err(e) && e@ == "Window size must be greater than 0"@),
        window_size > 0 && data@.len() == 0 ==> (r matches Err(e) && e@ == "File is empty"@),
        window_size > 0 && data@.len() > 0 ==> (r matches Ok(ws) && {
            &&& ws@.len() == ceil_div(data@.len() as int, window_size as int)
            &&& forall|i: int|
                0 <= i < ws@.len() ==> window_ok(
                    data@,
                    window_size as int,
                    i,
                    #[trigger] ws@[i],
                )
        }),
{
    if window_size == 0 {
        return Err("Window size must be greater than 0".to_owned());
    }
    let len = data.len();
    if len == 0 {
        return Err("File is empty".to_owned());
    }
    let ghost w = window_size as int;
    let mut results: Vec<SlidingWindowResult> = Vec::new();
    let mut start: usize = 0;
    proof {
        assert(results@.len() * w == 0) by (nonlinear_arith)
            requires
                results@.len() == 0,
        ;
    }
    while start < len
        invariant
            window_size > 0,
            w == window_size as int,
            data@.len() == len,
            0 < len,
            start <= len,
            (start == results@.len() * w) || (start == len && results@.len() == ceil_div(
                len as int,
                w,
            )),
            forall|i: int|
                0 <= i < results@.len() ==> window_ok(data@, w, i, #[trigger] results@[i]),
        decreases len - start,
    {
        let remaining = len - start;
        let this_size: usize = if (remaining as u64) < window_size {
            remaining
        } else {
            window_size as usize
        };
        proof {
            if remaining as u64 >= window_size {
                assert(window_size <= usize::MAX);
                assert(this_size as u64 == window_size);
                assert(this_size as int == w);
            } else {
                assert(this_size == remaining);
                assert((this_size as int) < w);
            }
        }
        let counter = count_range(data, start, this_size);
        let e = calculate_byte_level_entropy(&counter.counts, counter.total);
        let ghost old_results = results@;
        let ghost i = results@.len() as int;
        results.push(
            SlidingWindowResult { position: start as u64, chunk_size: this_size as u64, entropy: e },
        );
        proof {
            assert(start == i * w);
            assert((i + 1) * w == i * w + w) by (nonlinear_arith);
            let sub = data@.subrange(start as int, start as int + this_size as int);
            assert(counter.counts@ == data_counts(sub));
            assert(sub.len() == this_size);
            assert(results@[i].entropy == byte_entropy_of(sub));
            assert(window_ok(data@, w, i, results@[i]));
            assert(forall|j: int| 0 <= j < i ==> results@[j] == old_results[j]);
        }
        start = start + this_size;
        proof {
            if this_size as u64 == window_size {
                assert(this_size as int == w);
                assert(start == (i + 1) * w);
            } else {
                assert(start == len);
                assert(len == i * w + this_size);
                assert(0 < this_size < w);
                assert((len + w - 1) == w * (i + 1) + (this_size - 1)) by (nonlinear_arith)
                    requires
                        len == i * w + this_size,
                ;
                vstd::arithmetic::div_mod::lemma_div_multiples_vanish_fancy(
                    i + 1,
                    this_size - 1,
                    w,
                );
                assert(ceil_div(len as int, w) == i + 1);
            }
        }
    }
    proof {
        if start == results@.len() * w {
            assert(start == len);
            let q = results@.len() as int;
            assert((len + w - 1) == w * q + (w - 1)) by (nonlinear_arith)
                requires
                    len == q * w,
            ;
            vstd::arithmetic::div_mod::lemma_div_multiples_vanish_fancy(q, w - 1, w);
            assert(ceil_div(len as int, w) == q);
        }
    }
    Ok(results)
}

/// Smallest, largest and mean window entropy of a sliding-window run, on
/// the fixed-point grid.
#[derive(Clone, Debug)]
pub struct WindowSummary {
    pub min_entropy: u64,
    pub max_entropy: u64,
    pub avg_entropy: u64,
}

/// The entropies of a window sequence, in order.
pub open spec fn window_entropies(ws: Seq<SlidingWindowResult>) -> Seq<u64> {
    ws.map_values(|w: SlidingWindowResult| w.entropy)
}

/// Reduce a sliding-window run to its smallest, largest and mean window
/// entropy; absent for an empty run. The minimum and maximum are attained
/// by some window and bound every window; the mean is rounded down to the
/// fixed-point grid.
pub fn summarize_windows(results: &Vec<SlidingWindowResult>) -> (r: Option<WindowSummary>)
    ensures
        results@.len() == 0 <==> r is None,
        r matches Some(s) ==> {
            let es = window_entropies(results@);
            &&& (exists|j: int| 0 <= j < es.len() && #[trigger] es[j] == s.min_entropy)
            &&& (exists|j: int| 0 <= j < es.len() && #[trigger] es[j] == s.max_entropy)
            &&& (forall|j: int| 0 <= j < es.len() ==> s.min_entropy <= #[trigger] es[j]
                <= s.max_entropy)
            &&& s.avg_entropy == (seq_sum(es) / es.len()) as u64
        },
{
    let n = results.len();
    if n == 0 {
        return None;
    }
    let ghost es = window_entropies(results@);
    let first = results[0].entropy;
    let mut min_entropy = first;
    let mut max_entropy = first;
    let mut acc: u128 = first as u128;
    let mut i: usize = 1;
    proof {
        assert(es.take(0) =~= Seq::<u64>::empty());
        lemma_seq_sum_take_succ(es, 0);
        assert(es[0] == first);
    }
    while i < n
        invariant
            n == results@.len(),
            es == window_entropies(results@),
            es.len() == n,
            1 <= i <= n,
            exists|j: int| 0 <= j < i && #[trigger] es[j] == min_entropy,
            exists|j: int| 0 <= j < i && #[trigger] es[j] == max_entropy,
            forall|j: int| 0 <= j < i ==> min_entropy <= #[trigger] es[j] <= max_entropy,
            acc == seq_sum(es.take(i as int)),
        decreases n - i,
    {
        let e = results[i].entropy;
        proof {
            assert(es[i as int] == e);
            lemma_seq_sum_take_succ(es, i as int);
            crate::numeric::lemma_seq_sum_bounded(
                es.take(i as int + 1),
                0xffff_ffff_ffff_ffff,
            );
            assert(es.take(i as int + 1).len() * 0xffff_ffff_ffff_ffff
                <= 0xffff_ffff_ffff_ffffu64 * 0xffff_ffff_ffff_ffff) by (nonlinear_arith)
                requires
                    es.take(i as int + 1).len() <= 0xffff_ffff_ffff_ffffu64,
            ;
        }
        if e < min_entropy {
            min_entropy = e;
        }
        if e > max_entropy {
            max_entropy = e;
        }
        acc = acc + (e as u128);
        i = i + 1;
    }
    proof {
        assert(es.take(n as int) =~= es);
        crate::numeric::lemma_seq_sum_bounded(es, 0xffff_ffff_ffff_ffff);
        vstd::arithmetic::div_mod::lemma_multiply_divide_le(
            acc as int,
            n as int,
            0xffff_ffff_ffff_ffff,
        );
        assert(n * 0xffff_ffff_ffff_ffff == 0xffff_ffff_ffff_ffff * (n as int)) by (
        nonlinear_arith);
    }
    let avg_entropy = (acc / (n as u128)) as u64;
    Some(WindowSummary { min_entropy, max_entropy, avg_entropy })
}

/// No byte value occurs more often than the sequence is long.
pub proof fn lemma_count_of_le_len(s: Seq<u8>, v: u8)
    ensures
        count_of(s, v) <= s.len(),
    decreases s.len(),
{
    if s.len() > 0 {
        lemma_count_of_le_len(s.drop_last(), v);
    }
}

proof fn lemma_seq_sum_all_zero(s: Seq<u64>)
    requires
        forall|i: int| 0 <= i < s.len() ==> s[i] == 0,
    ensures
        seq_sum(s) == 0,
    decreases s.len(),
{
    if s.len() > 0 {
        lemma_seq_sum_all_zero(s.drop_last());
    }
}

/// The 256 per-byte tallies of a sequence sum to its length.
pub proof fn lemma_data_counts_sum(data: Seq<u8>)
    requires
        data.len() <= u64::MAX,
    ensures
        seq_sum(data_counts(data)) == data.len(),
    decreases data.len(),
{
    if data.len() == 0 {
        lemma_seq_sum_all_zero(data_counts(data));
    } else {
        let prev = data.drop_last();
        lemma_data_counts_sum(prev);
        let b = data.last();
        lemma_count_of_le_len(prev, b);
        assert forall|v: int| 0 <= v < 256 implies #[trigger] data_counts(data)[v] == data_counts(
            prev,
        ).update(b as int, (count_of(prev, b) + 1) as u64)[v] by {
            assert(count_of(data, v as u8) == count_of(prev, v as u8) + if b == v as u8 {
                1nat
            } else {
                0nat
            });
            lemma_count_of_le_len(prev, v as u8);
        }
        assert(data_counts(data) =~= data_counts(prev).update(
            b as int,
            (count_of(prev, b) + 1) as u64,
        ));
        lemma_seq_sum_update(data_counts(prev), b as int, (count_of(prev, b) + 1) as u64);
    }
}

/// A sequence in which every byte value occurs the same
/// number of times `m`, or not at all, with `2^k` distinct values present
/// (`k <= 8`), has byte-level entropy of exactly `k` bits.
pub proof fn lemma_uniform_data_entropy(data: Seq<u8>, m: u64, k: nat)
    requires
        1 <= m,
        k <= 8,
        data.len() == m * pow2(k),
        data.len() <= u64::MAX,
        forall|v: u8| count_of(data, v) == m || count_of(data, v) == 0,
    ensures
        byte_entropy_of(data) == k * crate::entropy::ENTROPY_SCALE,
{
    lemma_data_counts_sum(data);
    assert forall|j: int|
        0 <= j < 256 implies #[trigger] data_counts(data)[j] == m || data_counts(data)[j]
        == 0 by {
        lemma_count_of_le_len(data, j as u8);
        assert(count_of(data, j as u8) == m || count_of(data, j as u8) == 0);
    }
    crate::entropy::lemma_uniform_table_entropy(
        data_counts(data),
        data.len() as u64,
        m,
        k,
    );
}

/// A non-empty sequence of one repeated byte has byte-level
/// entropy of exactly zero.
pub proof fn lemma_constant_data_entropy_zero(data: Seq<u8>, b: u8)
    requires
        data.len() > 0,
        data.len() <= u64::MAX,
        forall|i: int| 0 <= i < data.len() ==> data[i] == b,
    ensures
        byte_entropy_of(data) == 0,
{
    assert forall|v: u8| count_of(data, v) == data.len() as u64 || count_of(data, v) == 0 by {
        lemma_count_of_constant(data, b, v);
    }
    vstd::arithmetic::power2::lemma2_to64();
    let n = data.len() as u64;
    assert(n == data.len());
    assert(n * pow2(0) == n) by (nonlinear_arith)
        requires
            pow2(0) == 1,
    ;
    lemma_uniform_data_entropy(data, n, 0);
}

proof fn lemma_count_of_constant(data: Seq<u8>, b: u8, v: u8)
    requires
        forall|i: int| 0 <= i < data.len() ==> data[i] == b,
    ensures
        v == b ==> count_of(data, v) == data.len(),
        v != b ==> count_of(data, v) == 0,
    decreases data.len(),
{
    if data.len() > 0 {
        lemma_count_of_constant(data.drop_last(), b, v);
    }
}

/// Counting the concatenation of two chunks is the same as counting them one
/// after the other: the per-byte tallies add. This is what lets a stream be
/// cut into reads of any size.
pub proof fn lemma_count_of_concat(a: Seq<u8>, b: Seq<u8>, v: u8)
    ensures
        count_of(a + b, v) == count_of(a, v) + count_of(b, v),
    decreases b.len(),
{
    if b.len() == 0 {
        assert(a + b =~= a);
    } else {
        lemma_count_of_concat(a, b.drop_last(), v);
        assert((a + b).drop_last() =~= a + b.drop_last());
        assert((a + b).last() == b.last());
    }
}

} // verus!
