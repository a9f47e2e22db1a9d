//! Entropy-adaptive parameter selection.
//!
//! The Shannon entropy of the byte-value distribution decides the window
//! length `k` and the gap set.  Floating point stays out of the verified
//! core, so the estimator computes the entropy in Q16 fixed point
//! (65536 units per bit), with the base-2 logarithm interpolated
//! linearly between neighbouring powers of two; the two band thresholds
//! are the Q16 values of 3.5 and 4.5 bits.

use vstd::prelude::*;
use vstd::arithmetic::power2::{
    pow2, lemma_pow2_adds, lemma_pow2_strictly_increases, lemma2_to64, lemma2_to64_rest,
};
use vstd::arithmetic::div_mod::{lemma_div_is_ordered, lemma_div_multiples_vanish};
use vstd::bits::lemma_u64_shl_is_mul;
use crate::seqs::filled;

verus! {

/// Q16 threshold below which a buffer counts as low-entropy (3.5 bits).
pub const LOW_BAND_Q16: u64 = 229376;

/// Q16 threshold below which a buffer counts as mid-entropy (4.5 bits).
pub const MID_BAND_Q16: u64 = 294912;

/// floor(log2 x) for x >= 1.
pub open spec fn spec_floor_log2(x: int) -> int
    recommends
        x >= 1,
    decreases x,
{
    if x < 2 {
        0
    } else {
        1 + spec_floor_log2(x / 2)
    }
}

pub proof fn lemma_floor_log2_bounds(x: int)
    requires
        x >= 1,
    ensures
        0 <= spec_floor_log2(x),
        pow2(spec_floor_log2(x) as nat) <= x < 2 * pow2(spec_floor_log2(x) as nat),
    decreases x,
{
    if x < 2 {
        lemma2_to64();
    } else {
        lemma_floor_log2_bounds(x / 2);
        let e1 = spec_floor_log2(x / 2);
        lemma_pow2_adds(1, e1 as nat);
        lemma2_to64();
    }
}

pub proof fn lemma_floor_log2_u64(x: int)
    requires
        1 <= x <= u64::MAX,
    ensures
        0 <= spec_floor_log2(x) <= 63,
{
    lemma_floor_log2_bounds(x);
    let e = spec_floor_log2(x);
    if e >= 64 {
        lemma2_to64_rest();
        assert(pow2(64) == 0x10000000000000000) by {
            lemma2_to64_rest();
        }
        if e > 64 {
            lemma_pow2_strictly_increases(64, e as nat);
        }
        assert(pow2(e as nat) >= 0x10000000000000000);
        assert(false);
    }
}

/// log2 x in Q16 fixed point, interpolated linearly between the two
/// neighbouring powers of two.
pub open spec fn spec_log2_q16(x: int) -> int
    recommends
        x >= 1,
{
    let e = spec_floor_log2(x);
    e * 65536 + (x - pow2(e as nat)) * 65536 / (pow2(e as nat) as int)
}

/// floor(log2 x), by repeated halving.
#[verifier::loop_isolation(false)]
pub fn floor_log2(x: u64) -> (e: u64)
    requires
        x >= 1,
    ensures
        e as int == spec_floor_log2(x as int),
        e <= 63,
{
    let mut m = x;
    let mut e: u64 = 0;
    while m >= 2
        invariant
            1 <= m,
            spec_floor_log2(x as int) == e + spec_floor_log2(m as int),
            e <= 63,
        decreases m,
    {
        m = m / 2;
        e = e + 1;
        proof {
            lemma_floor_log2_u64(x as int);
            lemma_floor_log2_bounds(m as int);
        }
    }
    proof {
        lemma_floor_log2_u64(x as int);
    }
    e
}

/// log2 in Q16: the floor exponent plus an interpolated 16-bit fraction.
#[verifier::rlimit(30)]
pub fn log2_q16(x: u64) -> (r: u64)
    requires
        x >= 1,
    ensures
        r as int == spec_log2_q16(x as int),
        r < 4194304,
{
    let e = floor_log2(x);
    proof {
        lemma_floor_log2_bounds(x as int);
        lemma2_to64_rest();
        assert(pow2(63) == 0x8000000000000000) by {
            lemma2_to64_rest();
        }
        if (e as nat) < 63 {
            lemma_pow2_strictly_increases(e as nat, 63);
        }
        lemma_u64_shl_is_mul(1u64, e);
    }
    let p: u64 = 1u64 << e;
    let rem: u64 = x - p;
    let frac128: u128 = ((rem as u128) * 65536) / (p as u128);
    proof {
        assert(rem < p);
        assert((rem as int) * 65536 < (p as int) * 65536) by (nonlinear_arith)
            requires
                (rem as int) < (p as int),
        ;
        assert(frac128 as int == (rem as int) * 65536 / (p as int));
        assert(frac128 < 65536) by (nonlinear_arith)
            requires
                (frac128 as int) == (rem as int) * 65536 / (p as int),
                (rem as int) * 65536 < (p as int) * 65536,
                p >= 1,
        ;
    }
    let frac: u64 = frac128 as u64;
    e * 65536 + frac
}

/// Occurrences of byte value `v` among the first `upto` bytes of `s`.
pub open spec fn count_byte(s: Seq<u8>, v: int, upto: int) -> int
    decreases upto,
{
    if upto <= 0 {
        0
    } else {
        count_byte(s, v, upto - 1) + if s[upto - 1] as int == v {
            1int
        } else {
            0int
        }
    }
}

pub proof fn lemma_count_byte_le(s: Seq<u8>, v: int, upto: int)
    requires
        0 <= upto <= s.len(),
    ensures
        0 <= count_byte(s, v, upto) <= upto,
    decreases upto,
{
    if upto > 0 {
        lemma_count_byte_le(s, v, upto - 1);
    }
}

/// Sum over the byte values below `b` of `c * log2_q16(c)`, `c` the
/// value's count in `s`, counting only values that occur.
pub open spec fn entropy_terms(s: Seq<u8>, b: int) -> int
    decreases b,
{
    if b <= 0 {
        0
    } else {
        let c = count_byte(s, b - 1, s.len() as int);
        entropy_terms(s, b - 1) + if c > 0 {
            c * spec_log2_q16(c)
        } else {
            0int
        }
    }
}

/// The Q16 entropy of a non-empty buffer:
/// `(n*log2(n) - sum_v c_v*log2(c_v)) / n`.
pub open spec fn spec_entropy_q16(s: Seq<u8>) -> int
    recommends
        s.len() >= 1,
{
    let n = s.len() as int;
    let total = n * spec_log2_q16(n);
    let ssum = entropy_terms(s, 256);
    if total >= ssum {
        (total - ssum) / n
    } else {
        0
    }
}

/// Computes the Q16 entropy of a non-empty byte buffer.
#[verifier::loop_isolation(false)]
#[verifier::rlimit(40)]
pub fn compute_entropy_q16(data: &[u8]) -> (r: u64)
    requires
        1 <= data@.len(),
    ensures
        r as int == spec_entropy_q16(data@),
        r < 4194304,
{
    let n = data.len();
    let mut freq: Vec<u64> = filled(256, 0);
    let mut i: usize = 0;
    while i < n
        invariant
            i <= n,
            freq@.len() == 256,
            forall|v: int|
                0 <= v < 256 ==> #[trigger] freq@[v] as int == count_byte(data@, v, i as int),
        decreases n - i,
    {
        let b = data[i] as usize;
        proof {
            lemma_count_byte_le(data@, b as int, i as int);
        }
        let c = freq[b];
        freq.set(b, c + 1);
        proof {
            assert forall|v: int| 0 <= v < 256 implies #[trigger] freq@[v] as int == count_byte(
                data@,
                v,
                i + 1,
            ) by {}
        }
        i += 1;
    }
    let mut ssum: u128 = 0;
    let mut v: usize = 0;
    while v < 256
        invariant
            v <= 256,
            ssum as int == entropy_terms(data@, v as int),
            ssum as int <= (v as int) * (n as int) * 4194304,
        decreases 256 - v,
    {
        let c = freq[v];
        proof {
            lemma_count_byte_le(data@, v as int, n as int);
        }
        if c > 0 {
            let l = log2_q16(c);
            proof {
                assert((c as int) * (l as int) <= (n as int) * 4194304) by (nonlinear_arith)
                    requires
                        0 <= (c as int) <= (n as int),
                        0 <= (l as int) < 4194304,
                ;
                assert(((v + 1) as int) * (n as int) * 4194304 == (v as int) * (n as int) * 4194304
                    + (n as int) * 4194304) by (nonlinear_arith);
                assert((n as int) <= 0xffffffffffffffff);
                assert((v as int) * (n as int) * 4194304 + (n as int) * 4194304 <= 257 * 0xffffffffffffffff * 4194304) by (nonlinear_arith)
                    requires
                        0 <= (v as int) <= 256,
                        0 <= (n as int) <= 0xffffffffffffffff,
                ;
            }
            ssum = ssum + (c as u128) * (l as u128);
        } else {
            proof {
                assert(((v + 1) as int) * (n as int) * 4194304 >= (v as int) * (n as int)
                    * 4194304) by (nonlinear_arith)
                    requires
                        (n as int) >= 0,
                ;
            }
        }
        v += 1;
    }
    let l2n = log2_q16(n as u64);
    proof {
        assert((n as int) <= 0xffffffffffffffff);
        assert((n as int) * (l2n as int) <= 0xffffffffffffffff * 4194304) by (nonlinear_arith)
            requires
                0 <= (n as int) <= 0xffffffffffffffff,
                0 <= (l2n as int) < 4194304,
        ;
    }
    let total: u128 = (n as u128) * (l2n as u128);
    let diff: u128 = if total >= ssum {
        total - ssum
    } else {
        0
    };
    let h: u128 = diff / (n as u128);
    proof {
        lemma_div_multiples_vanish(l2n as int, n as int);
        lemma_div_is_ordered(diff as int, total as int, n as int);
        assert(h as int == spec_entropy_q16(data@));
    }
    h as u64
}

/// Maps a Q16 entropy value to the configured window length and gap set:
/// low entropy takes longer windows and wider gaps, high entropy shorter
/// windows and narrower gaps.
pub fn select_params(h: u64) -> (r: (usize, Vec<usize>))
    ensures
        ({
            let (k, gaps) = r;
            &&& (h < LOW_BAND_Q16 ==> k == 6 && gaps@ == seq![8usize, 16usize, 32usize, 64usize])
            &&& (LOW_BAND_Q16 <= h < MID_BAND_Q16 ==> k == 5 && gaps@ == seq![
                6usize,
                12usize,
                24usize,
                48usize,
            ])
            &&& (h >= MID_BAND_Q16 ==> k == 4 && gaps@ == seq![4usize, 8usize, 16usize, 32usize])
        }),
{
    let mut gaps: Vec<usize> = Vec::new();
    if h < LOW_BAND_Q16 {
        gaps.push(8);
        gaps.push(16);
        gaps.push(32);
        gaps.push(64);
        proof {
            assert(gaps@ =~= seq![8usize, 16usize, 32usize, 64usize]);
        }
        (6, gaps)
    } else if h < MID_BAND_Q16 {
        gaps.push(6);
        gaps.push(12);
        gaps.push(24);
        gaps.push(48);
        proof {
            assert(gaps@ =~= seq![6usize, 12usize, 24usize, 48usize]);
        }
        (5, gaps)
    } else {
        gaps.push(4);
        gaps.push(8);
        gaps.push(16);
        gaps.push(32);
        proof {
            assert(gaps@ =~= seq![4usize, 8usize, 16usize, 32usize]);
        }
        (4, gaps)
    }
}

} // verus!
