//! The per-gap bucket table: an open-addressed hash table, built in two
//! counting passes, mapping a combined two-window fingerprint to the
//! ascending list of buffer offsets sharing it.
//!
//! Slot occupancy is tracked in an explicit bitset beside the key array,
//! so a genuine fingerprint of value zero is handled like any other key
//! rather than colliding with an "empty slot" sentinel.

use vstd::prelude::*;
use vstd::arithmetic::div_mod::{
    lemma_small_mod, lemma_add_mod_noop, lemma_mod_add_multiples_vanish,
    lemma_mod_division_less_than_divisor,
};
use vstd::arithmetic::power2::{pow2, lemma_pow2_adds, lemma2_to64};
use crate::hashing::{spec_combine, window_fp, prefix_hash, base_pow, window_hash, combine_hashes};
use crate::seqs::{
    sorted_strict, count_true, sum_upto, lemma_count_true_full, lemma_push_contains,
    lemma_sorted_push, lemma_sum_upto_claim, lemma_sum_upto_bump, lemma_sum_upto_monotone,
    filled,
};

verus! {

/// Number of indexable offsets of a buffer of length `n` for window
/// length `k` and gap `d`: offsets `i` with `i + k + d <= n`.
pub open spec fn entries_of(n: int, k: int, d: int) -> int {
    if n >= k + d {
        n - (k + d) + 1
    } else {
        0
    }
}

/// The combined key of buffer offset `i`: the fingerprints of the windows
/// `[i, i+k)` and `[i+d, i+d+k)` mixed with the gap distance.
pub open spec fn key_at(s: Seq<u8>, k: int, d: int, i: int) -> u64 {
    spec_combine(
        window_fp(s.subrange(i, i + k)),
        window_fp(s.subrange(i + d, i + d + k)),
        d as u64,
    )
}

/// The ascending sequence of offsets below `upto` whose combined key is `key`.
pub open spec fn offsets_with_key(s: Seq<u8>, k: int, d: int, key: u64, upto: int) -> Seq<usize>
    decreases upto,
{
    if upto <= 0 {
        Seq::empty()
    } else {
        let p = offsets_with_key(s, k, d, key, upto - 1);
        if key_at(s, k, d, upto - 1) == key {
            p.push((upto - 1) as usize)
        } else {
            p
        }
    }
}

#[verifier::rlimit(80)]
pub proof fn lemma_ows_props(s: Seq<u8>, k: int, d: int, key: u64, upto: int)
    requires
        0 <= upto <= usize::MAX,
    ensures
        offsets_with_key(s, k, d, key, upto).len() <= upto,
        sorted_strict(offsets_with_key(s, k, d, key, upto)),
        forall|x: usize|
            #[trigger] offsets_with_key(s, k, d, key, upto).contains(x) <==> (x < upto && key_at(
                s,
                k,
                d,
                x as int,
            ) == key),
    decreases upto,
{
    if upto > 0 {
        lemma_ows_props(s, k, d, key, upto - 1);
        let p = offsets_with_key(s, k, d, key, upto - 1);
        let w = offsets_with_key(s, k, d, key, upto);
        if key_at(s, k, d, upto - 1) == key {
            assert forall|y: usize| p.contains(y) implies y < (upto - 1) as usize by {}
            lemma_sorted_push(p, (upto - 1) as usize);
            assert forall|x: usize| w.contains(x) implies (x < upto && key_at(s, k, d, x as int)
                == key) by {
                lemma_push_contains(p, (upto - 1) as usize, x);
            }
            assert forall|x: usize| x < upto && key_at(s, k, d, x as int) == key implies w.contains(
                x,
            ) by {
                lemma_push_contains(p, (upto - 1) as usize, x);
            }
        }
    }
}

pub proof fn lemma_ows_grow(s: Seq<u8>, k: int, d: int, key: u64, u1: int, u2: int)
    requires
        0 <= u1 <= u2,
    ensures
        offsets_with_key(s, k, d, key, u1).len() <= offsets_with_key(s, k, d, key, u2).len(),
    decreases u2,
{
    if u2 > u1 {
        lemma_ows_grow(s, k, d, key, u1, u2 - 1);
    }
}

/// The home slot of a key.
pub open spec fn start_slot(key: u64, ts: int) -> int {
    (key as int) % ts
}

/// The slot reached after `t` probe steps from the key's home slot.
pub open spec fn probe_at(key: u64, t: int, ts: int) -> int {
    (start_slot(key, ts) + t) % ts
}

/// The number of probe steps from the key's home slot to slot `s`.
pub open spec fn dist_to(key: u64, s: int, ts: int) -> int {
    (s - start_slot(key, ts) + ts) % ts
}

/// Probing `dist_to` steps reaches the slot, and the distance of the
/// slot reached after `t < ts` steps is `t`.
pub proof fn lemma_probe_cycle(key: u64, s: int, ts: int)
    requires
        0 <= s < ts,
    ensures
        0 <= dist_to(key, s, ts) < ts,
        probe_at(key, dist_to(key, s, ts), ts) == s,
{
    let st = start_slot(key, ts);
    lemma_mod_division_less_than_divisor(key as int, ts);
    if s >= st {
        lemma_mod_add_multiples_vanish(s - st, ts);
        lemma_small_mod((s - st) as nat, ts as nat);
        lemma_small_mod(s as nat, ts as nat);
    } else {
        lemma_small_mod((s - st + ts) as nat, ts as nat);
        lemma_mod_add_multiples_vanish(s, ts);
        lemma_small_mod(s as nat, ts as nat);
    }
}

pub proof fn lemma_probe_range(key: u64, t: int, ts: int)
    requires
        0 <= t,
        0 < ts,
    ensures
        0 <= probe_at(key, t, ts) < ts,
{
    lemma_mod_division_less_than_divisor(key as int, ts);
    lemma_mod_division_less_than_divisor(start_slot(key, ts) + t, ts);
}

pub proof fn lemma_probe_dist(key: u64, t: int, ts: int)
    requires
        0 <= t < ts,
    ensures
        dist_to(key, probe_at(key, t, ts), ts) == t,
{
    let st = start_slot(key, ts);
    lemma_mod_division_less_than_divisor(key as int, ts);
    if st + t < ts {
        lemma_small_mod((st + t) as nat, ts as nat);
        lemma_mod_add_multiples_vanish(t, ts);
        lemma_small_mod(t as nat, ts as nat);
    } else {
        lemma_mod_add_multiples_vanish(st + t - ts, ts);
        lemma_small_mod((st + t - ts) as nat, ts as nat);
        lemma_small_mod(t as nat, ts as nat);
    }
}

/// One probe step from the slot at distance `t`.
pub proof fn lemma_probe_step(key: u64, t: int, ts: int)
    requires
        0 <= t,
        2 <= ts,
    ensures
        probe_at(key, t + 1, ts) == if probe_at(key, t, ts) + 1 == ts {
            0int
        } else {
            probe_at(key, t, ts) + 1
        },
{
    let st = start_slot(key, ts);
    lemma_mod_division_less_than_divisor(key as int, ts);
    lemma_probe_range(key, t, ts);
    lemma_add_mod_noop(st + t, 1, ts);
    lemma_small_mod(1nat, ts as nat);
    let p = probe_at(key, t, ts);
    assert((st + t + 1) % ts == (p + 1) % ts);
    if p + 1 == ts {
        lemma_mod_add_multiples_vanish(0, ts);
        lemma_small_mod(0nat, ts as nat);
    } else {
        lemma_small_mod((p + 1) as nat, ts as nat);
    }
}

/// The slot `t` probe steps from the key's home slot is occupied and
/// holds a different key.
pub open spec fn probe_step_ok(keys: Seq<u64>, occ: Seq<bool>, key: u64, t: int, ts: int) -> bool {
    occ[probe_at(key, t, ts)] && keys[probe_at(key, t, ts)] != key
}

/// Every slot on the probe path of `key` short of `upto` steps is
/// occupied and holds a different key.
pub open spec fn path_clear(keys: Seq<u64>, occ: Seq<bool>, key: u64, upto: int, ts: int) -> bool {
    forall|t: int| 0 <= t < upto ==> #[trigger] probe_step_ok(keys, occ, key, t, ts)
}

/// The linear-probing invariant: every occupied slot is reachable from
/// its key's home slot through a fully occupied path holding no earlier
/// copy of that key.
pub open spec fn probe_inv(keys: Seq<u64>, occ: Seq<bool>, ts: int) -> bool {
    &&& keys.len() == ts
    &&& occ.len() == ts
    &&& forall|s: int|
        0 <= s < ts && occ[s] ==> path_clear(keys, occ, #[trigger] keys[s], dist_to(keys[s], s, ts), ts)
}

/// A clear probe path extends over an occupied slot holding another key.
pub proof fn lemma_path_extend(keys: Seq<u64>, occ: Seq<bool>, key: u64, j: int, ts: int)
    requires
        0 <= j,
        0 < ts,
        keys.len() == ts,
        occ.len() == ts,
        path_clear(keys, occ, key, j, ts),
        occ[probe_at(key, j, ts)],
        keys[probe_at(key, j, ts)] != key,
    ensures
        path_clear(keys, occ, key, j + 1, ts),
{
    assert forall|t: int| 0 <= t < j + 1 implies #[trigger] probe_step_ok(keys, occ, key, t, ts) by {
        lemma_probe_range(key, t, ts);
        if t == j {
            assert(probe_step_ok(keys, occ, key, j, ts));
        } else {
            assert(probe_step_ok(keys, occ, key, t, ts));
        }
    }
}

/// Reaching a clear slot proves the key is nowhere in the table.
pub proof fn lemma_probe_empty(keys: Seq<u64>, occ: Seq<bool>, key: u64, j: int, ts: int)
    requires
        probe_inv(keys, occ, ts),
        0 <= j < ts,
        path_clear(keys, occ, key, j, ts),
        !occ[probe_at(key, j, ts)],
    ensures
        forall|s2: int| 0 <= s2 < ts && occ[s2] ==> keys[s2] != key,
{
    assert forall|s2: int| 0 <= s2 < ts && occ[s2] implies keys[s2] != key by {
        if keys[s2] == key {
            let dd = dist_to(key, s2, ts);
            lemma_probe_cycle(key, s2, ts);
            if dd < j {
                assert(probe_step_ok(keys, occ, key, dd, ts));
            } else if dd == j {
                assert(probe_at(key, dd, ts) == s2);
            } else {
                assert(path_clear(keys, occ, keys[s2], dist_to(keys[s2], s2, ts), ts));
                assert(probe_step_ok(keys, occ, keys[s2], j, ts));
            }
        }
    }
}

/// Reaching the key proves its slot is the unique one holding it.
pub proof fn lemma_probe_found(keys: Seq<u64>, occ: Seq<bool>, key: u64, j: int, ts: int)
    requires
        probe_inv(keys, occ, ts),
        0 <= j < ts,
        path_clear(keys, occ, key, j, ts),
        occ[probe_at(key, j, ts)],
        keys[probe_at(key, j, ts)] == key,
    ensures
        forall|s2: int|
            0 <= s2 < ts && occ[s2] && keys[s2] == key ==> s2 == probe_at(key, j, ts),
{
    let sl = probe_at(key, j, ts);
    lemma_probe_range(key, j, ts);
    assert forall|s2: int| 0 <= s2 < ts && occ[s2] && keys[s2] == key implies s2 == sl by {
        let dd = dist_to(key, s2, ts);
        lemma_probe_cycle(key, s2, ts);
        if dd < j {
            assert(probe_step_ok(keys, occ, key, dd, ts));
        } else if dd > j {
            assert(path_clear(keys, occ, keys[s2], dist_to(keys[s2], s2, ts), ts));
            assert(probe_step_ok(keys, occ, keys[s2], j, ts));
        }
    }
}

/// A fully clear probe path of length `ts` would mean a full table.
pub proof fn lemma_probe_full(keys: Seq<u64>, occ: Seq<bool>, key: u64, ts: int)
    requires
        keys.len() == ts,
        occ.len() == ts,
        0 < ts,
        path_clear(keys, occ, key, ts, ts),
    ensures
        count_true(occ) == ts,
{
    assert forall|s2: int| 0 <= s2 < ts implies occ[s2] by {
        let dd = dist_to(key, s2, ts);
        lemma_probe_cycle(key, s2, ts);
        assert(probe_step_ok(keys, occ, key, dd, ts));
    }
    lemma_count_true_full(occ);
}

/// Looks `key` up by linear probing: either its unique slot, or `None`
/// when an unoccupied slot proves the key absent.
#[verifier::loop_isolation(false)]
#[verifier::rlimit(60)]
pub fn probe_slot(keys: &Vec<u64>, occ: &Vec<bool>, ts: usize, key: u64) -> (r: Option<usize>)
    requires
        keys@.len() == ts,
        occ@.len() == ts,
        2 <= ts,
        probe_inv(keys@, occ@, ts as int),
        count_true(occ@) < ts,
    ensures
        match r {
            Some(sl) => sl < ts && occ@[sl as int] && keys@[sl as int] == key && forall|s2: int|
                0 <= s2 < ts && occ@[s2] && keys@[s2] == key ==> s2 == sl,
            None => forall|s2: int| 0 <= s2 < ts && occ@[s2] ==> keys@[s2] != key,
        },
{
    let mut j: usize = 0;
    let mut slot: usize = (key % (ts as u64)) as usize;
    proof {
        lemma_mod_division_less_than_divisor(key as int, ts as int);
        lemma_small_mod(start_slot(key, ts as int) as nat, ts as nat);
        assert(slot as int == probe_at(key, 0, ts as int));
    }
    loop
        invariant
            j < ts,
            slot as int == probe_at(key, j as int, ts as int),
            path_clear(keys@, occ@, key, j as int, ts as int),
        decreases ts - j,
    {
        proof {
            lemma_probe_range(key, j as int, ts as int);
        }
        if !occ[slot] {
            proof {
                lemma_probe_empty(keys@, occ@, key, j as int, ts as int);
            }
            return None;
        }
        if keys[slot] == key {
            proof {
                lemma_probe_found(keys@, occ@, key, j as int, ts as int);
            }
            return Some(slot);
        }
        proof {
            lemma_path_extend(keys@, occ@, key, j as int, ts as int);
            if j + 1 == ts {
                lemma_probe_full(keys@, occ@, key, ts as int);
                assert(false);
            }
            lemma_probe_step(key, j as int, ts as int);
        }
        j += 1;
        slot = if slot + 1 == ts {
            0
        } else {
            slot + 1
        };
    }
}

/// Some occupied slot holds `key`.
pub open spec fn key_present(keys: Seq<u64>, occ: Seq<bool>, key: u64, ts: int) -> bool {
    exists|sl: int| 0 <= sl < ts && occ[sl] && keys[sl] == key
}

/// Claiming the first clear slot on a key's probe path keeps the
/// linear-probing invariant.
pub proof fn lemma_claim_preserves_inv(keys: Seq<u64>, occ: Seq<bool>, key: u64, j: int, ts: int)
    requires
        keys.len() == ts,
        occ.len() == ts,
        0 < ts,
        0 <= j < ts,
        probe_inv(keys, occ, ts),
        path_clear(keys, occ, key, j, ts),
        !occ[probe_at(key, j, ts)],
    ensures
        probe_inv(
            keys.update(probe_at(key, j, ts), key),
            occ.update(probe_at(key, j, ts), true),
            ts,
        ),
{
    let sl = probe_at(key, j, ts);
    lemma_probe_range(key, j, ts);
    let k2 = keys.update(sl, key);
    let o2 = occ.update(sl, true);
    lemma_probe_dist(key, j, ts);
    assert forall|s: int| 0 <= s < ts && o2[s] implies path_clear(
        k2,
        o2,
        #[trigger] k2[s],
        dist_to(k2[s], s, ts),
        ts,
    ) by {
        if s == sl {
            assert forall|t: int| 0 <= t < j implies #[trigger] probe_step_ok(k2, o2, key, t, ts) by {
                lemma_probe_range(key, t, ts);
                assert(probe_step_ok(keys, occ, key, t, ts));
                let p = probe_at(key, t, ts);
                assert(occ[p]);
                assert(p != sl);
            }
            assert(k2[sl] == key);
            assert(dist_to(k2[s], s, ts) == j);
        } else {
            assert(occ[s]);
            let ks = keys[s];
            assert(k2[s] == ks);
            assert(path_clear(keys, occ, ks, dist_to(ks, s, ts), ts));
            assert forall|t: int| 0 <= t < dist_to(ks, s, ts) implies #[trigger] probe_step_ok(
                k2,
                o2,
                ks,
                t,
                ts,
            ) by {
                lemma_probe_range(ks, t, ts);
                assert(probe_step_ok(keys, occ, ks, t, ts));
                let p = probe_at(ks, t, ts);
                assert(occ[p]);
                assert(p != sl);
            }
        }
    }
}

/// Probes for `key` during construction: bumps the counter of the slot
/// already holding it, or claims the first clear slot on its probe path
/// with counter one.
#[verifier::loop_isolation(false)]
#[verifier::rlimit(80)]
pub fn claim_slot(
    keys: &mut Vec<u64>,
    occ: &mut Vec<bool>,
    counts: &mut Vec<usize>,
    ts: usize,
    key: u64,
) -> (sl: usize)
    requires
        old(keys)@.len() == ts,
        old(occ)@.len() == ts,
        old(counts)@.len() == ts,
        2 <= ts,
        probe_inv(old(keys)@, old(occ)@, ts as int),
        count_true(old(occ)@) < ts,
        forall|s2: int| 0 <= s2 < ts ==> old(counts)@[s2] < usize::MAX,
    ensures
        sl < ts,
        final(keys)@.len() == ts,
        final(occ)@.len() == ts,
        final(counts)@.len() == ts,
        probe_inv(final(keys)@, final(occ)@, ts as int),
        ({
            ||| (old(occ)@[sl as int] && old(keys)@[sl as int] == key && final(keys)@ == old(keys)@
                && final(occ)@ == old(occ)@ && final(counts)@ == old(counts)@.update(
                sl as int,
                (old(counts)@[sl as int] + 1) as usize,
            ) && (forall|s2: int|
                0 <= s2 < ts && old(occ)@[s2] && old(keys)@[s2] == key ==> s2 == sl))
            ||| (!old(occ)@[sl as int] && final(keys)@ == old(keys)@.update(sl as int, key)
                && final(occ)@ == old(occ)@.update(sl as int, true) && final(counts)@ == old(
                counts,
            )@.update(sl as int, 1usize) && (forall|s2: int|
                0 <= s2 < ts && old(occ)@[s2] ==> old(keys)@[s2] != key) && count_true(
                final(occ)@,
            ) == count_true(old(occ)@) + 1)
        }),
{
    let mut j: usize = 0;
    let mut slot: usize = (key % (ts as u64)) as usize;
    proof {
        lemma_mod_division_less_than_divisor(key as int, ts as int);
        lemma_small_mod(start_slot(key, ts as int) as nat, ts as nat);
        assert(slot as int == probe_at(key, 0, ts as int));
    }
    loop
        invariant
            j < ts,
            slot as int == probe_at(key, j as int, ts as int),
            path_clear(keys@, occ@, key, j as int, ts as int),
            keys@ == old(keys)@,
            occ@ == old(occ)@,
            counts@ == old(counts)@,
        decreases ts - j,
    {
        proof {
            lemma_probe_range(key, j as int, ts as int);
        }
        if !occ[slot] {
            proof {
                lemma_probe_empty(keys@, occ@, key, j as int, ts as int);
                lemma_claim_preserves_inv(keys@, occ@, key, j as int, ts as int);
                crate::seqs::lemma_count_true_set(occ@, slot as int);
            }
            keys.set(slot, key);
            occ.set(slot, true);
            counts.set(slot, 1);
            return slot;
        }
        if keys[slot] == key {
            proof {
                lemma_probe_found(keys@, occ@, key, j as int, ts as int);
            }
            let c = counts[slot];
            counts.set(slot, c + 1);
            return slot;
        }
        proof {
            lemma_path_extend(keys@, occ@, key, j as int, ts as int);
            if j + 1 == ts {
                lemma_probe_full(keys@, occ@, key, ts as int);
                assert(false);
            }
            lemma_probe_step(key, j as int, ts as int);
        }
        j += 1;
        slot = if slot + 1 == ts {
            0
        } else {
            slot + 1
        };
    }
}

/// No offset below `upto` carries `key`, so its posting list is empty.
pub proof fn lemma_ows_absent(s: Seq<u8>, k: int, d: int, key: u64, upto: int)
    requires
        0 <= upto <= usize::MAX,
        forall|jj: int| 0 <= jj < upto ==> key_at(s, k, d, jj) != key,
    ensures
        offsets_with_key(s, k, d, key, upto).len() == 0,
{
    lemma_ows_props(s, k, d, key, upto);
    let w = offsets_with_key(s, k, d, key, upto);
    if w.len() > 0 {
        assert(w.contains(w[0]));
        assert(key_at(s, k, d, w[0] as int) == key);
        assert(false);
    }
}

/// One gap's bucket table: open-addressed keys with an occupancy bitset,
/// and the postings array grouped by slot.
pub struct FlatIndex {
    pub table_size: usize,
    pub keys: Vec<u64>,
    pub occupied: Vec<bool>,
    pub starts: Vec<usize>,
    pub lens: Vec<usize>,
    pub postings: Vec<usize>,
}

impl FlatIndex {
    /// The posting range of slot `sl`.
    pub open spec fn slot_postings(self, sl: int) -> Seq<usize> {
        self.postings@.subrange(
            self.starts@[sl] as int,
            self.starts@[sl] as int + self.lens@[sl] as int,
        )
    }

    /// Well-formedness against the indexed buffer `s`, window length `k`
    /// and gap `d`: the table is a power of two at most half full, the
    /// probing invariant holds, every occupied slot's posting range is
    /// exactly the ascending offsets carrying its key, and every indexable
    /// offset's key is present.
    pub open spec fn wf(self, s: Seq<u8>, k: int, d: int) -> bool {
        let ts = self.table_size as int;
        let e = entries_of(s.len() as int, k, d);
        &&& self.keys@.len() == ts
        &&& self.occupied@.len() == ts
        &&& self.starts@.len() == ts
        &&& self.lens@.len() == ts
        &&& self.postings@.len() == e
        &&& 16 <= ts
        &&& 2 * e <= ts
        &&& (exists|x: nat| ts == pow2(x))
        &&& count_true(self.occupied@) <= e
        &&& probe_inv(self.keys@, self.occupied@, ts)
        &&& forall|sl: int|
            0 <= sl < ts && #[trigger] self.occupied@[sl] ==> (self.starts@[sl] + self.lens@[sl]
                <= e && self.slot_postings(sl) == offsets_with_key(s, k, d, self.keys@[sl], e))
        &&& forall|i: int|
            0 <= i < e ==> #[trigger] key_present(
                self.keys@,
                self.occupied@,
                key_at(s, k, d, i),
                ts,
            )
    }

    /// Builds the bucket table for gap `d` over the buffer whose prefix
    /// hashes are `ph`: a counting pass sizes every slot's posting range,
    /// an exclusive prefix sum places the ranges, and a second pass fills
    /// them in ascending offset order.
    #[verifier::loop_isolation(false)]
    #[verifier::rlimit(40)]
    pub fn new(
        ph: &Vec<u64>,
        pw: &Vec<u64>,
        n: usize,
        k: usize,
        d: usize,
        Ghost(s): Ghost<Seq<u8>>,
    ) -> (r: FlatIndex)
        requires
            n == s.len(),
            n <= usize::MAX / 8,
            ph@.len() == n + 1,
            forall|i: int| 0 <= i <= n ==> ph@[i] as int == prefix_hash(s, i),
            pw@.len() == n + 1,
            forall|i: int| 0 <= i <= n ==> pw@[i] as int == base_pow(i as nat),
            1 <= k,
            1 <= d,
            k + d <= usize::MAX,
        ensures
            r.wf(s, k as int, d as int),
    {
        let ghost ki = k as int;
        let ghost di = d as int;
        let entries: usize = if n >= k + d {
            n - (k + d) + 1
        } else {
            0
        };
        // table size: the least power of two at or above max(16, 2 * entries)
        let mut ts: usize = 16;
        let ghost mut te: nat = 4;
        proof {
            lemma2_to64();
        }
        while ts < 2 * entries
            invariant
                ts == pow2(te),
                16 <= ts,
            decreases 2 * entries - ts / 2,
        {
            proof {
                lemma_pow2_adds(te, 1);
                te = te + 1;
            }
            ts = ts * 2;
        }
        let pwk: u64 = if entries > 0 {
            pw[k]
        } else {
            0
        };
        let (keys, occupied, counts) = count_pass(ph, pwk, n, k, d, entries, ts, Ghost(s));
        let starts = prefix_pass(&counts, &occupied, ts, entries);
        let (postings, cursors) = fill_pass(
            ph,
            pwk,
            &keys,
            &occupied,
            &counts,
            &starts,
            n,
            k,
            d,
            entries,
            ts,
            Ghost(s),
        );
        let r = FlatIndex { table_size: ts, keys, occupied, starts, lens: cursors, postings };
        proof {
            let e = entries as int;
            assert forall|sl: int| 0 <= sl < ts && #[trigger] r.occupied@[sl] implies (r.starts@[sl]
                + r.lens@[sl] <= e && r.slot_postings(sl) == offsets_with_key(
                s,
                ki,
                di,
                r.keys@[sl],
                e,
            )) by {
                assert(r.starts@[sl] as int == sum_upto(counts@, occupied@, sl));
                assert(sum_upto(counts@, occupied@, sl + 1) == sum_upto(counts@, occupied@, sl)
                    + counts@[sl]);
                lemma_sum_upto_monotone(counts@, occupied@, sl + 1, ts as int);
            }
        }
        r
    }
}

/// The counting pass: probes every offset's key, claiming slots and
/// counting how many offsets share each distinct key.
#[verifier::loop_isolation(false)]
#[verifier::rlimit(40)]
fn count_pass(
    ph: &Vec<u64>,
    pwk: u64,
    n: usize,
    k: usize,
    d: usize,
    entries: usize,
    ts: usize,
    Ghost(s): Ghost<Seq<u8>>,
) -> (r: (Vec<u64>, Vec<bool>, Vec<usize>))
    requires
        n == s.len(),
        n <= usize::MAX / 8,
        ph@.len() == n + 1,
        forall|i: int| 0 <= i <= n ==> ph@[i] as int == prefix_hash(s, i),
        entries as int == entries_of(n as int, k as int, d as int),
        entries > 0 ==> pwk as int == base_pow(k as nat),
        2 <= ts,
        2 * entries <= ts,
        1 <= k,
        1 <= d,
        k + d <= usize::MAX,
    ensures
        ({
            let (keys, occupied, counts) = r;
            &&& keys@.len() == ts
            &&& occupied@.len() == ts
            &&& counts@.len() == ts
            &&& probe_inv(keys@, occupied@, ts as int)
            &&& count_true(occupied@) <= entries
            &&& sum_upto(counts@, occupied@, ts as int) == entries
            &&& forall|sl2: int|
                0 <= sl2 < ts ==> #[trigger] counts@[sl2] as int == (if occupied@[sl2] {
                    offsets_with_key(s, k as int, d as int, keys@[sl2], entries as int).len() as int
                } else {
                    0int
                })
            &&& forall|jj: int|
                0 <= jj < entries ==> #[trigger] key_present(
                    keys@,
                    occupied@,
                    key_at(s, k as int, d as int, jj),
                    ts as int,
                )
        }),
{
    let ghost ki = k as int;
    let ghost di = d as int;
    let mut keys: Vec<u64> = filled(ts, 0);
    let mut occupied: Vec<bool> = filled(ts, false);
    let mut counts: Vec<usize> = filled(ts, 0);
    proof {
        crate::seqs::lemma_count_true_none(occupied@);
        crate::seqs::lemma_sum_upto_none(counts@, occupied@, ts as int);
    }
    let mut i: usize = 0;
    while i < entries
        invariant
            i <= entries,
            keys@.len() == ts,
            occupied@.len() == ts,
            counts@.len() == ts,
            probe_inv(keys@, occupied@, ts as int),
            count_true(occupied@) <= i,
            sum_upto(counts@, occupied@, ts as int) == i,
            forall|sl2: int|
                0 <= sl2 < ts ==> #[trigger] counts@[sl2] as int == (if occupied@[sl2] {
                    offsets_with_key(s, ki, di, keys@[sl2], i as int).len() as int
                } else {
                    0int
                }),
            forall|jj: int|
                0 <= jj < i ==> #[trigger] key_present(
                    keys@,
                    occupied@,
                    key_at(s, ki, di, jj),
                    ts as int,
                ),
        decreases entries - i,
    {
        let h1 = window_hash(ph, pwk, i, k, Ghost(s));
        let h2 = window_hash(ph, pwk, i + d, k, Ghost(s));
        let key = combine_hashes(h1, h2, d as u64);
        proof {
            assert(key == key_at(s, ki, di, i as int));
            lemma_ows_props(s, ki, di, key, i as int);
            crate::seqs::lemma_count_true_bound(occupied@);
            assert forall|s2: int| 0 <= s2 < ts implies counts@[s2] < usize::MAX by {
                if occupied@[s2] {
                    lemma_ows_props(s, ki, di, keys@[s2], i as int);
                }
            }
        }
        let ghost k0 = keys@;
        let ghost o0 = occupied@;
        let ghost c0 = counts@;
        let sl = claim_slot(&mut keys, &mut occupied, &mut counts, ts, key);
        proof {
            let ii = i as int;
            if o0[sl as int] {
                // the key already had a slot: its counter grew by one
                assert(k0[sl as int] == key);
                lemma_sum_upto_bump(c0, o0, sl as int, (c0[sl as int] + 1) as usize, ts as int);
                assert forall|sl2: int| 0 <= sl2 < ts implies #[trigger] counts@[sl2] as int == (
                if occupied@[sl2] {
                    offsets_with_key(s, ki, di, keys@[sl2], ii + 1).len() as int
                } else {
                    0int
                }) by {
                    if sl2 == sl as int {
                        assert(offsets_with_key(s, ki, di, key, ii + 1) == offsets_with_key(
                            s,
                            ki,
                            di,
                            key,
                            ii,
                        ).push(i));
                    } else if occupied@[sl2] {
                        assert(k0[sl2] != key);
                        assert(offsets_with_key(s, ki, di, k0[sl2], ii + 1) == offsets_with_key(
                            s,
                            ki,
                            di,
                            k0[sl2],
                            ii,
                        ));
                    }
                }
                assert forall|jj: int| 0 <= jj < ii + 1 implies #[trigger] key_present(
                    keys@,
                    occupied@,
                    key_at(s, ki, di, jj),
                    ts as int,
                ) by {
                    if jj == ii {
                        assert(occupied@[sl as int] && keys@[sl as int] == key_at(s, ki, di, jj));
                    } else {
                        assert(key_present(k0, o0, key_at(s, ki, di, jj), ts as int));
                    }
                }
            } else {
                // a fresh slot was claimed: the key was absent before
                assert(keys@ == k0.update(sl as int, key));
                assert forall|jj: int| 0 <= jj < ii implies key_at(s, ki, di, jj) != key by {
                    assert(key_present(k0, o0, key_at(s, ki, di, jj), ts as int));
                    let s2 = choose|s2: int|
                        0 <= s2 < ts && o0[s2] && k0[s2] == key_at(s, ki, di, jj);
                    assert(k0[s2] != key);
                }
                lemma_ows_absent(s, ki, di, key, ii);
                lemma_sum_upto_claim(c0, o0, sl as int, ts as int);
                assert forall|sl2: int| 0 <= sl2 < ts implies #[trigger] counts@[sl2] as int == (
                if occupied@[sl2] {
                    offsets_with_key(s, ki, di, keys@[sl2], ii + 1).len() as int
                } else {
                    0int
                }) by {
                    if sl2 == sl as int {
                        assert(offsets_with_key(s, ki, di, key, ii + 1) == offsets_with_key(
                            s,
                            ki,
                            di,
                            key,
                            ii,
                        ).push(i));
                    } else if occupied@[sl2] {
                        assert(o0[sl2] && k0[sl2] != key);
                        assert(offsets_with_key(s, ki, di, k0[sl2], ii + 1) == offsets_with_key(
                            s,
                            ki,
                            di,
                            k0[sl2],
                            ii,
                        ));
                    }
                }
                assert forall|jj: int| 0 <= jj < ii + 1 implies #[trigger] key_present(
                    keys@,
                    occupied@,
                    key_at(s, ki, di, jj),
                    ts as int,
                ) by {
                    if jj == ii {
                        assert(occupied@[sl as int] && keys@[sl as int] == key_at(s, ki, di, jj));
                    } else {
                        assert(key_present(k0, o0, key_at(s, ki, di, jj), ts as int));
                        let s2 = choose|s2: int|
                            0 <= s2 < ts && o0[s2] && k0[s2] == key_at(s, ki, di, jj);
                        assert(s2 != sl as int);
                        assert(occupied@[s2] && keys@[s2] == k0[s2]);
                    }
                }
            }
        }
        i += 1;
    }
    (keys, occupied, counts)
}

/// The exclusive prefix sum placing each occupied slot's posting range.
#[verifier::loop_isolation(false)]
#[verifier::rlimit(40)]
fn prefix_pass(counts: &Vec<usize>, occupied: &Vec<bool>, ts: usize, entries: usize) -> (starts:
    Vec<usize>)
    requires
        counts@.len() == ts,
        occupied@.len() == ts,
        sum_upto(counts@, occupied@, ts as int) == entries,
    ensures
        starts@.len() == ts,
        forall|sl2: int|
            0 <= sl2 < ts && occupied@[sl2] ==> #[trigger] starts@[sl2] as int == sum_upto(
                counts@,
                occupied@,
                sl2,
            ),
{
    let mut starts: Vec<usize> = filled(ts, 0);
    let mut acc: usize = 0;
    let mut idx: usize = 0;
    while idx < ts
        invariant
            idx <= ts,
            starts@.len() == ts,
            acc as int == sum_upto(counts@, occupied@, idx as int),
            acc <= entries,
            forall|sl2: int|
                0 <= sl2 < idx && occupied@[sl2] ==> #[trigger] starts@[sl2] as int == sum_upto(
                    counts@,
                    occupied@,
                    sl2,
                ),
        decreases ts - idx,
    {
        proof {
            lemma_sum_upto_monotone(counts@, occupied@, idx + 1, ts as int);
        }
        if occupied[idx] {
            starts.set(idx, acc);
            acc = acc + counts[idx];
        }
        idx += 1;
    }
    starts
}

/// The filling pass: re-probes every offset and writes it at its slot's
/// cursor, leaving each slot's posting range ascending.
#[verifier::loop_isolation(false)]
#[verifier::rlimit(40)]
fn fill_pass(
    ph: &Vec<u64>,
    pwk: u64,
    keys: &Vec<u64>,
    occupied: &Vec<bool>,
    counts: &Vec<usize>,
    starts: &Vec<usize>,
    n: usize,
    k: usize,
    d: usize,
    entries: usize,
    ts: usize,
    Ghost(s): Ghost<Seq<u8>>,
) -> (r: (Vec<usize>, Vec<usize>))
    requires
        n == s.len(),
        n <= usize::MAX / 8,
        ph@.len() == n + 1,
        forall|i: int| 0 <= i <= n ==> ph@[i] as int == prefix_hash(s, i),
        entries as int == entries_of(n as int, k as int, d as int),
        entries > 0 ==> pwk as int == base_pow(k as nat),
        2 <= ts,
        2 * entries <= ts,
        1 <= k,
        1 <= d,
        k + d <= usize::MAX,
        keys@.len() == ts,
        occupied@.len() == ts,
        counts@.len() == ts,
        starts@.len() == ts,
        probe_inv(keys@, occupied@, ts as int),
        count_true(occupied@) <= entries,
        sum_upto(counts@, occupied@, ts as int) == entries,
        forall|sl2: int|
            0 <= sl2 < ts ==> #[trigger] counts@[sl2] as int == (if occupied@[sl2] {
                offsets_with_key(s, k as int, d as int, keys@[sl2], entries as int).len() as int
            } else {
                0int
            }),
        forall|jj: int|
            0 <= jj < entries ==> #[trigger] key_present(
                keys@,
                occupied@,
                key_at(s, k as int, d as int, jj),
                ts as int,
            ),
        forall|sl2: int|
            0 <= sl2 < ts && occupied@[sl2] ==> #[trigger] starts@[sl2] as int == sum_upto(
                counts@,
                occupied@,
                sl2,
            ),
    ensures
        ({
            let (postings, cursors) = r;
            &&& postings@.len() == entries
            &&& cursors@.len() == ts
            &&& cursors@ == counts@
            &&& forall|sl2: int|
                0 <= sl2 < ts && #[trigger] occupied@[sl2] ==> postings@.subrange(
                    starts@[sl2] as int,
                    starts@[sl2] as int + cursors@[sl2] as int,
                ) == offsets_with_key(s, k as int, d as int, keys@[sl2], entries as int)
        }),
{
    let ghost ki = k as int;
    let ghost di = d as int;
    let mut postings: Vec<usize> = filled(entries, 0);
    let mut cursors: Vec<usize> = filled(ts, 0);
    proof {
        assert forall|sl2: int|
            0 <= sl2 < ts && #[trigger] occupied@[sl2] implies postings@.subrange(
            starts@[sl2] as int,
            starts@[sl2] as int + cursors@[sl2] as int,
        ) == offsets_with_key(s, ki, di, keys@[sl2], 0) by {
            assert(starts@[sl2] as int == sum_upto(counts@, occupied@, sl2));
            lemma_sum_upto_monotone(counts@, occupied@, 0, sl2);
            lemma_sum_upto_monotone(counts@, occupied@, sl2, ts as int);
            assert(postings@.subrange(starts@[sl2] as int, starts@[sl2] as int)
                =~= offsets_with_key(s, ki, di, keys@[sl2], 0));
        }
    }
    let mut i2: usize = 0;
    while i2 < entries
        invariant
            i2 <= entries,
            postings@.len() == entries,
            cursors@.len() == ts,
            forall|sl2: int|
                0 <= sl2 < ts ==> #[trigger] cursors@[sl2] as int == (if occupied@[sl2] {
                    offsets_with_key(s, ki, di, keys@[sl2], i2 as int).len() as int
                } else {
                    0int
                }),
            forall|sl2: int|
                0 <= sl2 < ts && #[trigger] occupied@[sl2] ==> postings@.subrange(
                    starts@[sl2] as int,
                    starts@[sl2] as int + cursors@[sl2] as int,
                ) == offsets_with_key(s, ki, di, keys@[sl2], i2 as int),
        decreases entries - i2,
    {
        let h1 = window_hash(ph, pwk, i2, k, Ghost(s));
        let h2 = window_hash(ph, pwk, i2 + d, k, Ghost(s));
        let key = combine_hashes(h1, h2, d as u64);
        proof {
            assert(key == key_at(s, ki, di, i2 as int));
            crate::seqs::lemma_count_true_bound(occupied@);
        }
        let res = probe_slot(keys, occupied, ts, key);
        match res {
            Some(sl) => {
                proof {
                    let ii = i2 as int;
                    let sli = sl as int;
                    // the cursor has room: offsets with this key keep coming
                    assert(offsets_with_key(s, ki, di, key, ii + 1) == offsets_with_key(
                        s,
                        ki,
                        di,
                        key,
                        ii,
                    ).push(i2));
                    lemma_ows_grow(s, ki, di, key, ii + 1, entries as int);
                    assert(cursors@[sli] < counts@[sli]);
                    // the write lands inside this slot's range
                    assert(starts@[sli] as int == sum_upto(counts@, occupied@, sli));
                    assert(sum_upto(counts@, occupied@, sli + 1) == sum_upto(
                        counts@,
                        occupied@,
                        sli,
                    ) + counts@[sli]);
                    lemma_sum_upto_monotone(counts@, occupied@, sli + 1, ts as int);
                    assert(starts@[sli] + counts@[sli] <= entries);
                }
                let pos = starts[sl] + cursors[sl];
                let ghost p0 = postings@;
                let ghost cu0 = cursors@;
                postings.set(pos, i2);
                let cu = cursors[sl];
                cursors.set(sl, cu + 1);
                proof {
                    let ii = i2 as int;
                    let sli = sl as int;
                    let st = starts@[sli] as int;
                    assert forall|sl2: int|
                        0 <= sl2 < ts && #[trigger] occupied@[sl2] implies postings@.subrange(
                        starts@[sl2] as int,
                        starts@[sl2] as int + cursors@[sl2] as int,
                    ) == offsets_with_key(s, ki, di, keys@[sl2], ii + 1) by {
                        if sl2 == sli {
                            assert(postings@.subrange(st, st + cu0[sli] + 1) =~= p0.subrange(
                                st,
                                st + cu0[sli],
                            ).push(i2));
                        } else {
                            // the write is outside this slot's range
                            assert(keys@[sl2] != key);
                            assert(offsets_with_key(s, ki, di, keys@[sl2], ii + 1)
                                == offsets_with_key(s, ki, di, keys@[sl2], ii));
                            lemma_ows_grow(s, ki, di, keys@[sl2], ii, entries as int);
                            assert(cu0[sl2] <= counts@[sl2]);
                            assert(starts@[sl2] as int == sum_upto(counts@, occupied@, sl2));
                            assert(sum_upto(counts@, occupied@, sl2 + 1) == sum_upto(
                                counts@,
                                occupied@,
                                sl2,
                            ) + counts@[sl2]);
                            lemma_sum_upto_monotone(counts@, occupied@, sl2 + 1, ts as int);
                            if sl2 < sli {
                                lemma_sum_upto_monotone(counts@, occupied@, sl2 + 1, sli);
                            } else {
                                lemma_sum_upto_monotone(counts@, occupied@, sli + 1, sl2);
                            }
                            assert(postings@.subrange(
                                starts@[sl2] as int,
                                starts@[sl2] as int + cursors@[sl2] as int,
                            ) =~= p0.subrange(
                                starts@[sl2] as int,
                                starts@[sl2] as int + cu0[sl2] as int,
                            ));
                        }
                    }
                }
            },
            None => {
                proof {
                    assert(key_present(keys@, occupied@, key_at(s, ki, di, i2 as int), ts as int));
                    let s2 = choose|s2: int|
                        0 <= s2 < ts && occupied@[s2] && keys@[s2] == key_at(s, ki, di, i2 as int);
                    assert(false);
                }
            },
        }
        i2 += 1;
    }
    proof {
        assert forall|sl2: int| 0 <= sl2 < ts implies cursors@[sl2] == counts@[sl2] by {}
        assert(cursors@ =~= counts@);
    }
    (postings, cursors)
}

} // verus!
