//! Rolling polynomial fingerprints of byte windows.
//!
//! A prefix-hash table over a byte sequence lets the fingerprint of any
//! fixed-length window be read off in constant time as
//! `H[a+k] - H[a]*BASE^k`, all under wraparound arithmetic modulo 2^64.
//! Wraparound is the defined semantics of the hash ring, not an error.

use vstd::prelude::*;
use vstd::arithmetic::power::{pow, lemma_pow0, lemma_pow1, lemma_pow_adds, lemma_pow_positive};
use vstd::arithmetic::div_mod::{
    lemma_small_mod, lemma_add_mod_noop, lemma_sub_mod_noop, lemma_mod_division_less_than_divisor,
    lemma_mul_mod_noop_left, lemma_mul_mod_noop_right, lemma_mod_add_multiples_vanish,
};
use vstd::arithmetic::mul::{lemma_mul_is_associative, lemma_mul_is_distributive_add_other_way};

verus! {

/// Multiplier of the polynomial rolling hash.
pub const BASE_P: u64 = 1315423911;

/// The hash ring's modulus: all hash arithmetic wraps at 2^64.
pub open spec fn m64() -> int {
    0x1_0000_0000_0000_0000
}

/// Hash of the first `i` bytes of `s`: `H[0] = 0`, `H[i+1] = H[i]*BASE + s[i]`,
/// reduced modulo 2^64 at every step.
pub open spec fn prefix_hash(s: Seq<u8>, i: int) -> int
    decreases i,
{
    if i <= 0 {
        0
    } else {
        (prefix_hash(s, i - 1) * (BASE_P as int) + s[i - 1]) % m64()
    }
}

/// `BASE^e` in the hash ring.
pub open spec fn base_pow(e: nat) -> int {
    pow(BASE_P as int, e) % m64()
}

/// Fingerprint of a whole byte sequence: its full prefix hash.
pub open spec fn window_fp(s: Seq<u8>) -> u64 {
    prefix_hash(s, s.len() as int) as u64
}

pub proof fn lemma_prefix_hash_range(s: Seq<u8>, i: int)
    ensures
        0 <= prefix_hash(s, i) < m64(),
    decreases i,
{
    if i > 0 {
        lemma_prefix_hash_range(s, i - 1);
        lemma_mod_division_less_than_divisor(
            prefix_hash(s, i - 1) * (BASE_P as int) + s[i - 1],
            m64(),
        );
    }
}

/// The prefix hash of length `i` depends only on the first `i` bytes.
pub proof fn lemma_prefix_hash_agrees(s1: Seq<u8>, s2: Seq<u8>, i: int)
    requires
        i <= s1.len(),
        i <= s2.len(),
        forall|j: int| 0 <= j < i ==> s1[j] == s2[j],
    ensures
        prefix_hash(s1, i) == prefix_hash(s2, i),
    decreases i,
{
    if i > 0 {
        lemma_prefix_hash_agrees(s1, s2, i - 1);
    }
}

/// Decomposition of a prefix hash around an interior window:
/// `H[a+l] = H[a]*BASE^l + fp(s[a..a+l])` in the hash ring.
pub proof fn lemma_prefix_hash_split(s: Seq<u8>, a: int, l: int)
    requires
        0 <= a,
        0 <= l,
        a + l <= s.len(),
    ensures
        prefix_hash(s, a + l) == (prefix_hash(s, a) * pow(BASE_P as int, l as nat) + prefix_hash(
            s.subrange(a, a + l),
            l,
        )) % m64(),
    decreases l,
{
    let b = BASE_P as int;
    let m = m64();
    let x = prefix_hash(s, a);
    if l == 0 {
        lemma_pow0(b);
        lemma_prefix_hash_range(s, a);
        lemma_small_mod(x as nat, m as nat);
    } else {
        let l1 = l - 1;
        let sub = s.subrange(a, a + l);
        let sub1 = s.subrange(a, a + l1);
        lemma_prefix_hash_split(s, a, l1);
        let p1 = pow(b, l1 as nat);
        let f1 = prefix_hash(sub1, l1);
        let c = s[a + l - 1] as int;
        assert(sub[l - 1] == s[a + l - 1]);
        lemma_prefix_hash_agrees(sub, sub1, l1);
        // Unfold the two recursive definitions.
        assert(prefix_hash(s, a + l) == (prefix_hash(s, a + l1) * b + c) % m);
        assert(prefix_hash(sub, l) == (f1 * b + c) % m);
        assert(pow(b, l as nat) == b * p1) by {
            lemma_pow1(b);
            lemma_pow_adds(b, 1nat, l1 as nat);
        }
        let y = x * p1 + f1;
        // ((y % m) * b + c) % m == (y*b + c) % m
        lemma_mul_mod_noop_left(y, b, m);
        lemma_mod_division_less_than_divisor(y, m);
        lemma_add_mod_noop((y % m) * b, c, m);
        lemma_add_mod_noop(y * b, c, m);
        lemma_small_mod(c as nat, m as nat);
        assert(((y % m) * b + c) % m == (y * b + c) % m);
        // y*b == x*(b*p1) + f1*b
        lemma_mul_is_distributive_add_other_way(b, x * p1, f1);
        lemma_mul_is_associative(x, p1, b);
        assert(y * b == x * (p1 * b) + f1 * b);
        assert(p1 * b == b * p1);
        // fold the trailing byte back into the window fingerprint
        lemma_add_mod_noop(x * (b * p1), f1 * b + c, m);
        lemma_mod_division_less_than_divisor(f1 * b + c, m);
        lemma_small_mod(((x * (b * p1)) % m) as nat, m as nat);
        lemma_mul_mod_noop_right(x * (b * p1), f1 * b + c, m);
        assert((x * (b * p1) + (f1 * b + c) % m) % m == (x * (b * p1) + (f1 * b + c)) % m) by {
            lemma_add_mod_noop(x * (b * p1), (f1 * b + c) % m, m);
            lemma_add_mod_noop(x * (b * p1), f1 * b + c, m);
            lemma_mod_division_less_than_divisor(f1 * b + c, m);
            lemma_small_mod((((f1 * b + c) % m)) as nat, m as nat);
        }
        assert(prefix_hash(s, a + l) == (x * (b * p1) + prefix_hash(sub, l)) % m);
    }
}

/// What the constant-time window extraction computes: subtracting
/// `H[a]*BASE^k` from `H[a+k]` in the ring leaves the fingerprint of the
/// window `[a, a+k)` alone.
pub proof fn lemma_window_extract(s: Seq<u8>, a: int, k: int)
    requires
        0 <= a,
        0 <= k,
        a + k <= s.len(),
    ensures
        ({
            let hi = prefix_hash(s, a + k);
            let t = (prefix_hash(s, a) * base_pow(k as nat)) % m64();
            let f = prefix_hash(s.subrange(a, a + k), k);
            (if hi - t < 0 {
                hi - t + m64()
            } else {
                hi - t
            }) == f
        }),
{
    let m = m64();
    let b = BASE_P as int;
    let lo = prefix_hash(s, a);
    let hi = prefix_hash(s, a + k);
    let f = prefix_hash(s.subrange(a, a + k), k);
    let p = pow(b, k as nat);
    lemma_prefix_hash_split(s, a, k);
    lemma_prefix_hash_range(s, a);
    lemma_prefix_hash_range(s, a + k);
    lemma_prefix_hash_range(s.subrange(a, a + k), k);
    // (lo * (p % m)) % m == (lo * p) % m
    lemma_mul_mod_noop_right(lo, p, m);
    let t = (lo * p) % m;
    let aa = lo * p;
    lemma_pow_positive(b, k as nat);
    vstd::arithmetic::mul::lemma_mul_nonnegative(lo, p);
    // hi == (aa + f) % m, t == aa % m; conclude the difference is f
    lemma_sub_mod_noop(aa + f, aa, m);
    assert((hi - t) % m == (aa + f - aa) % m);
    lemma_small_mod(f as nat, m as nat);
    assert((hi - t) % m == f);
    lemma_mod_division_less_than_divisor(aa + f, m);
    lemma_mod_division_less_than_divisor(aa, m);
    if hi - t < 0 {
        lemma_mod_add_multiples_vanish(hi - t, m);
        lemma_small_mod((hi - t + m) as nat, m as nat);
    } else {
        lemma_small_mod((hi - t) as nat, m as nat);
    }
}

/// One step of the rolling hash: multiplying a reduced value by the base
/// and adding a reduced byte, each with wraparound, is the reduced result.
pub proof fn lemma_ring_mul_add(x: int, c: int)
    requires
        0 <= x < m64(),
        0 <= c < m64(),
    ensures
        ({
            let t = (x * (BASE_P as int)) % m64();
            let r = if t + c < m64() {
                t + c
            } else {
                t + c - m64()
            };
            r == (x * (BASE_P as int) + c) % m64() && 0 <= r < m64()
        }),
{
    let m = m64();
    let b = BASE_P as int;
    vstd::arithmetic::mul::lemma_mul_nonnegative(x, b);
    lemma_mod_division_less_than_divisor(x * b, m);
    let t = (x * b) % m;
    lemma_add_mod_noop(x * b, c, m);
    lemma_small_mod(c as nat, m as nat);
    assert((t + c) % m == (x * b + c) % m);
    if t + c < m {
        lemma_small_mod((t + c) as nat, m as nat);
    } else {
        vstd::arithmetic::div_mod::lemma_mod_sub_multiples_vanish(t + c, m);
        lemma_small_mod((t + c - m) as nat, m as nat);
    }
}

/// Builds the prefix-hash table of `data`: length `n+1`, entry `i` holding
/// the hash of the first `i` bytes.
#[verifier::loop_isolation(false)]
#[verifier::rlimit(40)]
pub fn build_prefix_hashes(data: &[u8]) -> (r: Vec<u64>)
    ensures
        r@.len() == data@.len() + 1,
        forall|i: int| 0 <= i <= data@.len() ==> r@[i] as int == prefix_hash(data@, i),
{
    let n = data.len();
    let mut r: Vec<u64> = Vec::new();
    r.push(0);
    let mut i: usize = 0;
    while i < n
        invariant
            i <= n,
            r@.len() == i + 1,
            forall|j: int| 0 <= j <= i ==> r@[j] as int == prefix_hash(data@, j),
        decreases n - i,
    {
        let prev = r[i];
        let next = prev.wrapping_mul(BASE_P).wrapping_add(data[i] as u64);
        proof {
            lemma_prefix_hash_range(data@, i as int);
            lemma_ring_mul_add(prev as int, data@[i as int] as int);
            assert(next as int == prefix_hash(data@, i + 1));
        }
        r.push(next);
        i += 1;
    }
    r
}

/// Builds the base-power table: length `n+1`, entry `i` holding `BASE^i`
/// in the hash ring.
#[verifier::loop_isolation(false)]
pub fn build_power_table(n: usize) -> (r: Vec<u64>)
    ensures
        r@.len() == n + 1,
        forall|i: int| 0 <= i <= n ==> r@[i] as int == base_pow(i as nat),
{
    let mut r: Vec<u64> = Vec::new();
    r.push(1);
    proof {
        lemma_pow0(BASE_P as int);
        lemma_small_mod(1nat, m64() as nat);
    }
    let mut i: usize = 0;
    while i < n
        invariant
            i <= n,
            r@.len() == i + 1,
            forall|j: int| 0 <= j <= i ==> r@[j] as int == base_pow(j as nat),
        decreases n - i,
    {
        let prev = r[i];
        let next = prev.wrapping_mul(BASE_P);
        proof {
            let m = m64();
            let b = BASE_P as int;
            let p = pow(b, i as nat);
            lemma_mul_mod_noop_left(p, b, m);
            assert(pow(b, (i + 1) as nat) == b * p) by {
                lemma_pow1(b);
                lemma_pow_adds(b, 1nat, i as nat);
            }
            assert(next as int == base_pow((i + 1) as nat));
        }
        r.push(next);
        i += 1;
    }
    r
}

/// Reads the fingerprint of the window `[a, a+k)` of `s` out of its
/// prefix-hash table in constant time.
#[verifier::rlimit(40)]
pub fn window_hash(ph: &Vec<u64>, pk: u64, a: usize, k: usize, Ghost(s): Ghost<Seq<u8>>) -> (r:
    u64)
    requires
        ph@.len() == s.len() + 1,
        forall|i: int| 0 <= i <= s.len() ==> ph@[i] as int == prefix_hash(s, i),
        pk as int == base_pow(k as nat),
        a + k <= s.len(),
        s.len() <= usize::MAX - 1,
    ensures
        r == window_fp(s.subrange(a as int, (a + k) as int)),
{
    proof {
        lemma_window_extract(s, a as int, k as int);
        lemma_prefix_hash_range(s.subrange(a as int, (a + k) as int), k as int);
    }
    ph[a + k].wrapping_sub(ph[a].wrapping_mul(pk))
}

/// `x` multiplied by `y` in the hash ring.
pub open spec fn wmul64(x: u64, y: u64) -> u64 {
    ((x as int * y as int) % m64()) as u64
}

/// The combined key of two window fingerprints and a gap distance:
/// an xor-fold of the three followed by a three-round avalanche
/// finalizer (xor-shift by 33, multiply by a fixed odd constant).
#[verifier::opaque]
pub open spec fn spec_combine(h1: u64, h2: u64, d: u64) -> u64 {
    let x0 = h1 ^ (h2 << 1u64) ^ (d << 2u64);
    let x1 = wmul64(x0 ^ (x0 >> 33u64), 0xff51afd7ed558ccd);
    let x2 = wmul64(x1 ^ (x1 >> 33u64), 0xc4ceb9fe1a85ec53);
    x2 ^ (x2 >> 33u64)
}

/// Mixes two window fingerprints and the gap distance into one 64-bit key.
pub fn combine_hashes(h1: u64, h2: u64, d: u64) -> (r: u64)
    ensures
        r == spec_combine(h1, h2, d),
{
    proof {
        reveal(spec_combine);
    }
    let x0: u64 = h1 ^ (h2 << 1) ^ (d << 2);
    let x1: u64 = (x0 ^ (x0 >> 33)).wrapping_mul(0xff51afd7ed558ccd);
    let x2: u64 = (x1 ^ (x1 >> 33)).wrapping_mul(0xc4ceb9fe1a85ec53);
    x2 ^ (x2 >> 33)
}

} // verus!
