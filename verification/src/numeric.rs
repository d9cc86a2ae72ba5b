//! Sums over sequences of counters, and an integer square root.
//!
//! These are the shared arithmetic facts behind the frequency tables and the
//! aggregate statistics: how a sum reacts to taking a prefix, updating one
//! entry, and bounding one element.

use vstd::prelude::*;

verus! {

/// Sum of all entries of `s`.
pub open spec fn seq_sum(s: Seq<u64>) -> nat
    decreases s.len(),
{
    if s.len() == 0 {
        0
    } else {
        (seq_sum(s.drop_last()) + s.last()) as nat
    }
}

/// Extending a prefix by one entry adds that entry to its sum.
pub proof fn lemma_seq_sum_take_succ(s: Seq<u64>, i: int)
    requires
        0 <= i < s.len(),
    ensures
        seq_sum(s.take(i + 1)) == seq_sum(s.take(i)) + s[i],
{
    assert(s.take(i + 1).drop_last() =~= s.take(i));
    assert(s.take(i + 1).last() == s[i]);
}

/// A prefix never sums to more than the whole sequence.
pub proof fn lemma_seq_sum_prefix_le(s: Seq<u64>, i: int)
    requires
        0 <= i <= s.len(),
    ensures
        seq_sum(s.take(i)) <= seq_sum(s),
    decreases s.len() - i,
{
    if i == s.len() {
        assert(s.take(i) =~= s);
    } else {
        lemma_seq_sum_take_succ(s, i);
        lemma_seq_sum_prefix_le(s, i + 1);
    }
}

/// No entry exceeds the sum of all entries.
pub proof fn lemma_seq_sum_elem_le(s: Seq<u64>, i: int)
    requires
        0 <= i < s.len(),
    ensures
        s[i] <= seq_sum(s),
{
    lemma_seq_sum_take_succ(s, i);
    lemma_seq_sum_prefix_le(s, i + 1);
}

/// Replacing one entry changes the sum by the difference of the entries.
pub proof fn lemma_seq_sum_update(s: Seq<u64>, i: int, v: u64)
    requires
        0 <= i < s.len(),
    ensures
        seq_sum(s.update(i, v)) == seq_sum(s) - s[i] + v,
    decreases s.len(),
{
    if i == s.len() - 1 {
        assert(s.update(i, v).drop_last() =~= s.drop_last());
        assert(s.update(i, v).last() == v);
    } else {
        assert(s.update(i, v).drop_last() =~= s.drop_last().update(i, v));
        assert(s.update(i, v).last() == s.last());
        lemma_seq_sum_update(s.drop_last(), i, v);
    }
}

/// A sum of `len` values, each at most `bound`, is at most `len * bound`.
pub proof fn lemma_seq_sum_bounded(s: Seq<u64>, bound: u64)
    requires
        forall|i: int| 0 <= i < s.len() ==> s[i] <= bound,
    ensures
        seq_sum(s) <= s.len() * bound,
    decreases s.len(),
{
    if s.len() > 0 {
        lemma_seq_sum_bounded(s.drop_last(), bound);
        assert(s.last() == s[s.len() - 1]);
        assert((s.len() - 1) * bound + bound == s.len() * bound) by (nonlinear_arith);
    }
}

/// `r` is the square root of `v` rounded down.
pub open spec fn is_floor_sqrt(v: nat, r: nat) -> bool {
    r * r <= v < (r + 1) * (r + 1)
}

/// Square root rounded down, by binary search on the root.
pub fn isqrt128(v: u128) -> (r: u128)
    ensures
        is_floor_sqrt(v as nat, r as nat),
        r <= 0xffff_ffff_ffff_ffff,
{
    let mut lo: u128 = 0;
    let mut hi: u128 = 0x1_0000_0000_0000_0000;
    proof {
        assert((hi as int) * (hi as int) > v) by (nonlinear_arith)
            requires
                hi == 0x1_0000_0000_0000_0000,
                v < 0x1_0000_0000_0000_0000_0000_0000_0000_0000,
        ;
    }
    while lo + 1 < hi
        invariant
            lo < hi <= 0x1_0000_0000_0000_0000,
            lo * lo <= v,
            (hi as int) * (hi as int) > v,
        decreases hi - lo,
    {
        let mid = lo + (hi - lo) / 2;
        proof {
            assert(lo < mid < hi);
        }
        if mid <= v / mid {
            proof {
                vstd::arithmetic::div_mod::lemma_remainder_lower(v as int, mid as int);
                assert(mid * mid <= (v / mid) * mid + v % mid) by (nonlinear_arith)
                    requires
                        mid <= v / mid,
                        0 <= v % mid,
                        mid > 0,
                ;
                vstd::arithmetic::div_mod::lemma_fundamental_div_mod(v as int, mid as int);
            }
            lo = mid;
        } else {
            proof {
                vstd::arithmetic::div_mod::lemma_fundamental_div_mod(v as int, mid as int);
                assert((mid as int) * (mid as int) > v) by (nonlinear_arith)
                    requires
                        v / mid < mid,
                        v == (mid as int) * (v as int / mid as int) + (v as int % mid as int),
                        (v as int % mid as int) < mid,
                        mid > 0,
                ;
            }
            hi = mid;
        }
    }
    proof {
        assert(hi == lo + 1);
    }
    lo
}

} // verus!
