//! Output selection and the derived per-file quantities that the
//! text, JSON and CSV renderers print.
//!
//! Rendering itself (writers, serializers) lives outside this crate; the
//! numbers it prints are computed here, on the fixed-point grid.

use vstd::prelude::*;
use crate::entropy::BYTE_ENTROPY_CAP;
use crate::entropy::ENTROPY_SCALE;

verus! {

/// The output format a caller asked for.
#[derive(Clone, Copy, Debug, PartialEq, Eq, Structural)]
pub enum OutputFormat {
    Text,
    Json,
    Csv,
}

/// Carries the chosen output format to the rendering layer.
pub struct OutputFormatter {
    pub format: OutputFormat,
}

impl OutputFormatter {
    pub fn new(format: OutputFormat) -> (r: Self)
        ensures
            r.format == format,
    {
        OutputFormatter { format }
    }
}

/// Total information content of a file: entropy per byte times size, in
/// fixed-point bits.
pub fn entropy_of_file_fixed(entropy: u64, size_bytes: u64) -> (r: u128)
    requires
        entropy <= BYTE_ENTROPY_CAP,
    ensures
        r == entropy * size_bytes,
{
    proof {
        assert((entropy as int) * (size_bytes as int) < 0x80_0000_0000_0000_0000_0000) by (
        nonlinear_arith)
            requires
                entropy <= 0x80000,
                size_bytes < 0x1_0000_0000_0000_0000,
        ;
    }
    (entropy as u128) * (size_bytes as u128)
}

/// Entropy per byte expressed in bytes instead of bits: an eighth of the
/// entropy, in fixed point.
pub fn entropy_per_byte_bytes_fixed(entropy: u64) -> (r: u64)
    ensures
        r == entropy / 8,
{
    entropy / 8
}

/// How many bytes the file could theoretically shrink by: its size minus
/// its information content in bytes, in fixed-point bytes.
pub fn delta_compressible_fixed(entropy: u64, size_bytes: u64) -> (r: u128)
    requires
        entropy <= BYTE_ENTROPY_CAP,
    ensures
        r == size_bytes * ENTROPY_SCALE - entropy * size_bytes / 8,
{
    let info = entropy_of_file_fixed(entropy, size_bytes) / 8;
    let whole = (size_bytes as u128) * (ENTROPY_SCALE as u128);
    proof {
        assert(entropy * size_bytes <= 8 * ENTROPY_SCALE * size_bytes) by (nonlinear_arith)
            requires
                entropy <= 8 * ENTROPY_SCALE,
        ;
        vstd::arithmetic::div_mod::lemma_div_is_ordered(
            (entropy * size_bytes) as int,
            8 * ENTROPY_SCALE * size_bytes,
            8,
        );
        assert(8 * ENTROPY_SCALE * size_bytes == 8 * (ENTROPY_SCALE * size_bytes)) by (
        nonlinear_arith);
        vstd::arithmetic::div_mod::lemma_div_multiples_vanish(
            (ENTROPY_SCALE as int) * (size_bytes as int),
            8,
        );
        assert((size_bytes as int) * (ENTROPY_SCALE as int) == (ENTROPY_SCALE as int) * (
        size_bytes as int)) by (nonlinear_arith);
    }
    whole - info
}

/// Best theoretical coding ratio: eight bits per byte over the entropy, in
/// fixed point; absent (infinite) for entropy zero.
pub fn coding_ratio_fixed(entropy: u64) -> (r: Option<u64>)
    ensures
        entropy == 0 <==> r is None,
        r matches Some(v) ==> v == 8 * (ENTROPY_SCALE as int) * (ENTROPY_SCALE as int) / (
        entropy as int),
{
    if entropy == 0 {
        None
    } else {
        Some(8 * ENTROPY_SCALE * ENTROPY_SCALE / entropy)
    }
}

} // verus!
