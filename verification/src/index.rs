//! The index over one byte buffer and its query engine.
//!
//! `build_from` estimates the buffer's entropy, picks the window length
//! and gap set, and builds one bucket table per gap.  `search` probes
//! one table per gap the pattern can honour, intersects the ascending
//! candidate lists, and verifies every survivor against the buffer
//! bytes, so its result is exactly the set of verbatim occurrences.

use vstd::prelude::*;
use crate::bucket::{
    FlatIndex, entries_of, key_at, offsets_with_key, key_present, probe_slot, lemma_ows_props,
};
use crate::entropy::{
    compute_entropy_q16, select_params, spec_entropy_q16, LOW_BAND_Q16, MID_BAND_Q16,
};
use crate::hashing::{
    prefix_hash, base_pow, build_prefix_hashes, build_power_table, window_hash, combine_hashes,
};
use crate::seqs::{
    sorted_strict, intersect_sorted, copy_range, lemma_sorted_unique, lemma_take_step,
    lemma_take_subset, lemma_push_contains, lemma_sorted_push,
};

verus! {

/// The pattern occurs verbatim at offset `o` of the buffer.
pub open spec fn occurs_at(b: Seq<u8>, p: Seq<u8>, o: int) -> bool {
    &&& 0 <= o
    &&& o + p.len() <= b.len()
    &&& b.subrange(o, o + p.len() as int) == p
}

/// An occurrence agrees with the indexed windows: its combined key for
/// gap `d` equals the pattern's own, and it is an indexable offset.
pub proof fn lemma_occurrence_key(b: Seq<u8>, p: Seq<u8>, k: int, d: int, o: int)
    requires
        1 <= k,
        1 <= d,
        d + k <= p.len(),
        occurs_at(b, p, o),
    ensures
        0 <= o < entries_of(b.len() as int, k, d),
        key_at(b, k, d, o) == key_at(p, k, d, 0),
{
    let m = p.len() as int;
    assert(b.subrange(o, o + m) == p);
    assert forall|t: int| 0 <= t < m implies b[o + t] == p[t] by {
        assert(b.subrange(o, o + m)[t] == b[o + t]);
    }
    assert(b.subrange(o, o + k) =~= p.subrange(0, k));
    assert(b.subrange(o + d, o + d + k) =~= p.subrange(d, d + k));
}

/// An immutable search index over one byte buffer: the chosen window
/// length and ascending gap set, one bucket table per gap, the owned
/// buffer copy, and the base-power table of the rolling hash.
pub struct CSIIndex {
    pub k: usize,
    pub gaps: Vec<usize>,
    pub flat: Vec<FlatIndex>,
    pub text: Vec<u8>,
    pub pw: Vec<u64>,
}

impl CSIIndex {
    /// The gap set is ascending, the power table mirrors the buffer,
    /// and bucket table `j` is built from the buffer with the shared
    /// window length and exactly gap `j`.
    pub open spec fn wf(self) -> bool {
        &&& 1 <= self.k <= 8
        &&& 1 <= self.gaps@.len()
        &&& forall|a: int, b: int| 0 <= a < b < self.gaps@.len() ==> self.gaps@[a] < self.gaps@[b]
        &&& forall|a: int| 0 <= a < self.gaps@.len() ==> 1 <= #[trigger] self.gaps@[a] <= 64
        &&& 1 <= self.text@.len() <= usize::MAX / 8
        &&& self.pw@.len() == self.text@.len() + 1
        &&& forall|i: int| 0 <= i <= self.text@.len() ==> self.pw@[i] as int == base_pow(i as nat)
        &&& self.flat@.len() == self.gaps@.len()
        &&& forall|j: int|
            0 <= j < self.gaps@.len() ==> (#[trigger] self.flat@[j]).wf(
                self.text@,
                self.k as int,
                self.gaps@[j] as int,
            )
    }

    /// The shortest pattern the smallest configured gap can index.
    pub open spec fn min_len(self) -> int {
        self.k + self.gaps@[0] + self.k
    }

    /// Builds the index over a non-empty buffer: entropy picks the
    /// parameters per the configured bands, and one bucket table is
    /// built per gap.
    #[verifier::loop_isolation(false)]
    #[verifier::rlimit(40)]
    pub fn build_from(data: &[u8]) -> (r: CSIIndex)
        requires
            1 <= data@.len() <= usize::MAX / 8,
        ensures
            r.wf(),
            r.text@ == data@,
            ({
                let h = spec_entropy_q16(data@);
                &&& (h < LOW_BAND_Q16 ==> r.k == 6 && r.gaps@ == seq![
                    8usize,
                    16usize,
                    32usize,
                    64usize,
                ])
                &&& (LOW_BAND_Q16 <= h < MID_BAND_Q16 ==> r.k == 5 && r.gaps@ == seq![
                    6usize,
                    12usize,
                    24usize,
                    48usize,
                ])
                &&& (h >= MID_BAND_Q16 ==> r.k == 4 && r.gaps@ == seq![
                    4usize,
                    8usize,
                    16usize,
                    32usize,
                ])
            }),
    {
        let n = data.len();
        let h = compute_entropy_q16(data);
        let (k, gaps) = select_params(h);
        proof {
            if h < LOW_BAND_Q16 {
                assert(gaps@ == seq![8usize, 16usize, 32usize, 64usize]);
            } else if h < MID_BAND_Q16 {
                assert(gaps@ == seq![6usize, 12usize, 24usize, 48usize]);
            } else {
                assert(gaps@ == seq![4usize, 8usize, 16usize, 32usize]);
            }
            assert(gaps@.len() == 4);
            assert(forall|a: int| 0 <= a < 4 ==> 1 <= #[trigger] gaps@[a] <= 64);
            assert(forall|a: int, b: int| 0 <= a < b < 4 ==> gaps@[a] < gaps@[b]);
        }
        let ph = build_prefix_hashes(data);
        let pw = build_power_table(n);
        let mut text: Vec<u8> = Vec::new();
        let mut i: usize = 0;
        while i < n
            invariant
                i <= n,
                text@ == data@.subrange(0, i as int),
            decreases n - i,
        {
            text.push(data[i]);
            proof {
                assert(text@ =~= data@.subrange(0, i + 1));
            }
            i += 1;
        }
        proof {
            assert(text@ =~= data@);
        }
        let mut flat: Vec<FlatIndex> = Vec::new();
        let mut j: usize = 0;
        while j < gaps.len()
            invariant
                j <= gaps@.len(),
                flat@.len() == j,
                forall|t: int|
                    0 <= t < j ==> (#[trigger] flat@[t]).wf(data@, k as int, gaps@[t] as int),
            decreases gaps@.len() - j,
        {
            let fi = FlatIndex::new(&ph, &pw, n, k, gaps[j], Ghost(data@));
            flat.push(fi);
            j += 1;
        }
        CSIIndex { k, gaps, flat, text, pw }
    }

    /// All offsets where the pattern occurs verbatim in the indexed
    /// buffer, in strictly ascending order.  A pattern shorter than the
    /// minimum usable span reports no matches, even where it occurs.
    #[verifier::loop_isolation(false)]
    #[verifier::rlimit(80)]
    pub fn search(&self, pat: &[u8]) -> (r: Vec<usize>)
        requires
            self.wf(),
        ensures
            sorted_strict(r@),
            forall|o: usize|
                #[trigger] r@.contains(o) <==> (pat@.len() >= self.min_len() && occurs_at(
                    self.text@,
                    pat@,
                    o as int,
                )),
    {
        let ghost ki = self.k as int;
        let m = pat.len();
        let n = self.text.len();
        let minlen = self.k + self.gaps[0] + self.k;
        if m < minlen {
            return Vec::new();
        }
        if m > n {
            return Vec::new();
        }
        let php = build_prefix_hashes(pat);
        let pwk = self.pw[self.k];
        let mut lists: Vec<Vec<usize>> = Vec::new();
        let ghost mut gl: Seq<int> = Seq::empty();
        let mut idx: usize = 0;
        while idx < self.gaps.len()
            invariant
                idx <= self.gaps@.len(),
                lists@.len() == gl.len(),
                idx >= 1 ==> lists@.len() >= 1,
                forall|t: int|
                    0 <= t < gl.len() ==> 0 <= #[trigger] gl[t] < idx && self.gaps@[gl[t]]
                        + self.k <= m,
                forall|t: int|
                    0 <= t < gl.len() ==> (#[trigger] lists@[t])@ == offsets_with_key(
                        self.text@,
                        ki,
                        self.gaps@[gl[t]] as int,
                        key_at(pat@, ki, self.gaps@[gl[t]] as int, 0),
                        entries_of(n as int, ki, self.gaps@[gl[t]] as int),
                    ),
            decreases self.gaps@.len() - idx,
        {
            let d = self.gaps[idx];
            if d + self.k <= m {
                let h1 = window_hash(&php, pwk, 0, self.k, Ghost(pat@));
                let h2 = window_hash(&php, pwk, d, self.k, Ghost(pat@));
                let key = combine_hashes(h1, h2, d as u64);
                proof {
                    assert(key == key_at(pat@, ki, d as int, 0));
                }
                let fi = &self.flat[idx];
                proof {
                    assert(fi.wf(self.text@, ki, d as int));
                }
                match probe_slot(&fi.keys, &fi.occupied, fi.table_size, key) {
                    Some(sl) => {
                        let lst = copy_range(&fi.postings, fi.starts[sl], fi.lens[sl]);
                        proof {
                            assert(lst@ == fi.slot_postings(sl as int));
                            gl = gl.push(idx as int);
                        }
                        lists.push(lst);
                    },
                    None => {
                        // this gap's key is absent from the buffer, so no
                        // occurrence exists at all
                        proof {
                            assert forall|o: usize|
                                !(pat@.len() >= self.min_len() && occurs_at(
                                    self.text@,
                                    pat@,
                                    o as int,
                                )) by {
                                if occurs_at(self.text@, pat@, o as int) && pat@.len()
                                    >= self.min_len() {
                                    lemma_occurrence_key(self.text@, pat@, ki, d as int, o as int);
                                    assert(key_present(
                                        fi.keys@,
                                        fi.occupied@,
                                        key_at(self.text@, ki, d as int, o as int),
                                        fi.table_size as int,
                                    ));
                                    let s2 = choose|s2: int|
                                        0 <= s2 < fi.table_size && fi.occupied@[s2] && fi.keys@[s2]
                                            == key_at(self.text@, ki, d as int, o as int);
                                    assert(false);
                                }
                            }
                        }
                        return Vec::new();
                    },
                }
            }
            idx += 1;
        }
        // the smallest gap always fits a pattern of at least minlen bytes,
        // so at least one candidate list was collected
        let mut acc = copy_range(&lists[0], 0, lists[0].len());
        proof {
            assert(acc@ =~= lists@[0]@);
            lemma_ows_props(
                self.text@,
                ki,
                self.gaps@[gl[0]] as int,
                key_at(pat@, ki, self.gaps@[gl[0]] as int, 0),
                entries_of(n as int, ki, self.gaps@[gl[0]] as int),
            );
            assert forall|x: usize| #[trigger] acc@.contains(x) implies (forall|u: int|
                0 <= u < 1 ==> #[trigger] lists@[u]@.contains(x)) by {}
        }
        let mut t: usize = 1;
        while t < lists.len()
            invariant
                1 <= t <= lists@.len(),
                sorted_strict(acc@),
                forall|x: usize|
                    #[trigger] acc@.contains(x) <==> (forall|u: int|
                        0 <= u < t ==> #[trigger] lists@[u]@.contains(x)),
            decreases lists@.len() - t,
        {
            proof {
                lemma_ows_props(
                    self.text@,
                    ki,
                    self.gaps@[gl[t as int]] as int,
                    key_at(pat@, ki, self.gaps@[gl[t as int]] as int, 0),
                    entries_of(n as int, ki, self.gaps@[gl[t as int]] as int),
                );
            }
            let ghost acc0 = acc@;
            let nxt = intersect_sorted(&acc, &lists[t]);
            acc = nxt;
            proof {
                assert forall|x: usize| #[trigger] acc@.contains(x) implies (forall|u: int|
                    0 <= u < t + 1 ==> #[trigger] lists@[u]@.contains(x)) by {
                    assert(acc0.contains(x));
                }
                assert forall|x: usize|
                    (forall|u: int| 0 <= u < t + 1 ==> #[trigger] lists@[u]@.contains(x)) implies
                    #[trigger] acc@.contains(x) by {
                    assert forall|u: int| 0 <= u < t implies #[trigger] lists@[u]@.contains(x) by {}
                    assert(acc0.contains(x));
                    assert(lists@[t as int]@.contains(x));
                }
            }
            if acc.len() == 0 {
                proof {
                    assert forall|o: usize|
                        !(pat@.len() >= self.min_len() && occurs_at(
                            self.text@,
                            pat@,
                            o as int,
                        )) by {
                        if occurs_at(self.text@, pat@, o as int) && pat@.len() >= self.min_len() {
                            assert forall|u: int| 0 <= u < t + 1 implies #[trigger] lists@[u]@.contains(
                                o,
                            ) by {
                                let dj = self.gaps@[gl[u]] as int;
                                lemma_occurrence_key(self.text@, pat@, ki, dj, o as int);
                                lemma_ows_props(
                                    self.text@,
                                    ki,
                                    dj,
                                    key_at(pat@, ki, dj, 0),
                                    entries_of(n as int, ki, dj),
                                );
                            }
                            assert(acc@.contains(o));
                            assert(false);
                        }
                    }
                }
                return Vec::new();
            }
            t += 1;
        }
        // verify every surviving candidate against the real bytes
        let mut res: Vec<usize> = Vec::new();
        let mut q: usize = 0;
        while q < acc.len()
            invariant
                q <= acc@.len(),
                sorted_strict(res@),
                forall|x: usize|
                    #[trigger] res@.contains(x) <==> (acc@.take(q as int).contains(x) && occurs_at(
                        self.text@,
                        pat@,
                        x as int,
                    )),
            decreases acc@.len() - q,
        {
            let off = acc[q];
            proof {
                assert(acc@.contains(acc@[q as int]));
                assert(lists@[0]@.contains(off));
                lemma_ows_props(
                    self.text@,
                    ki,
                    self.gaps@[gl[0]] as int,
                    key_at(pat@, ki, self.gaps@[gl[0]] as int, 0),
                    entries_of(n as int, ki, self.gaps@[gl[0]] as int),
                );
                assert(off < n);
            }
            let ghost res0 = res@;
            if off + m <= n && bytes_match(&self.text, off, pat) {
                proof {
                    assert forall|y: usize| res@.contains(y) implies y < off by {
                        assert(acc@.take(q as int).contains(y));
                        let u = choose|u: int| 0 <= u < q && acc@.take(q as int)[u] == y;
                        assert(acc@[u] < acc@[q as int]);
                    }
                    lemma_sorted_push(res@, off);
                }
                res.push(off);
            }
            proof {
                lemma_take_step(acc@, q as int);
                assert forall|x: usize|
                    #[trigger] res@.contains(x) implies (acc@.take(q + 1).contains(x) && occurs_at(
                    self.text@,
                    pat@,
                    x as int,
                )) by {
                    lemma_push_contains(res0, off, x);
                    lemma_push_contains(acc@.take(q as int), off, x);
                }
                assert forall|x: usize|
                    acc@.take(q + 1).contains(x) && occurs_at(self.text@, pat@, x as int) implies
                    #[trigger] res@.contains(x) by {
                    lemma_push_contains(res0, off, x);
                    lemma_push_contains(acc@.take(q as int), off, x);
                }
            }
            q += 1;
        }
        proof {
            assert(acc@.take(acc@.len() as int) =~= acc@);
            assert forall|o: usize|
                pat@.len() >= self.min_len() && occurs_at(self.text@, pat@, o as int) implies
                #[trigger] res@.contains(o) by {
                assert forall|u: int| 0 <= u < t implies #[trigger] lists@[u]@.contains(o) by {
                    let dj = self.gaps@[gl[u]] as int;
                    lemma_occurrence_key(self.text@, pat@, ki, dj, o as int);
                    lemma_ows_props(
                        self.text@,
                        ki,
                        dj,
                        key_at(pat@, ki, dj, 0),
                        entries_of(n as int, ki, dj),
                    );
                }
                assert(acc@.contains(o));
            }
        }
        res
    }

    /// The first `cap` results of the full query: at most `cap` offsets,
    /// and exactly the leading prefix of the untruncated ascending
    /// result, with no signal that truncation occurred.
    pub fn search_capped(&self, pat: &[u8], cap: usize) -> (r: Vec<usize>)
        requires
            self.wf(),
        ensures
            r@.len() <= cap,
            sorted_strict(r@),
            forall|o: usize|
                #[trigger] r@.contains(o) ==> (pat@.len() >= self.min_len() && occurs_at(
                    self.text@,
                    pat@,
                    o as int,
                )),
            exists|full: Seq<usize>|
                sorted_strict(full) && (forall|o: usize|
                    #[trigger] full.contains(o) <==> (pat@.len() >= self.min_len() && occurs_at(
                        self.text@,
                        pat@,
                        o as int,
                    ))) && r@ == (if cap <= full.len() {
                    full.take(cap as int)
                } else {
                    full
                }),
    {
        let mut full = self.search(pat);
        let ghost f = full@;
        if full.len() > cap {
            full.truncate(cap);
            proof {
                assert forall|o: usize| #[trigger] full@.contains(o) implies f.contains(o) by {
                    lemma_take_subset(f, cap as int, o);
                }
                assert(sorted_strict(full@));
            }
        }
        proof {
            assert(sorted_strict(f));
            if cap >= f.len() {
                assert(full@ == f);
            }
        }
        full
    }
}

/// The buffer bytes starting at `off` equal the pattern exactly.
#[verifier::loop_isolation(false)]
fn bytes_match(text: &Vec<u8>, off: usize, pat: &[u8]) -> (b: bool)
    requires
        off + pat@.len() <= text@.len(),
    ensures
        b <==> text@.subrange(off as int, off as int + pat@.len() as int) == pat@,
{
    let m = pat.len();
    let tn = text.len();
    let mut t: usize = 0;
    while t < m
        invariant
            t <= m,
            forall|u: int| 0 <= u < t ==> text@[off + u] == pat@[u],
        decreases m - t,
    {
        if text[off + t] != pat[t] {
            proof {
                let sub = text@.subrange(off as int, off as int + pat@.len() as int);
                assert(sub[t as int] == text@[off + t]);
            }
            return false;
        }
        t += 1;
    }
    proof {
        assert(text@.subrange(off as int, off as int + pat@.len() as int) =~= pat@);
    }
    true
}

/// Repeated queries of one built index with one pattern return the same
/// result: any two sequences meeting the query contract are equal,
/// because the result is pinned by its membership and its order.
pub proof fn lemma_search_deterministic(
    b: Seq<u8>,
    p: Seq<u8>,
    minlen: int,
    r1: Seq<usize>,
    r2: Seq<usize>,
)
    requires
        sorted_strict(r1),
        sorted_strict(r2),
        forall|o: usize| #[trigger] r1.contains(o) <==> (p.len() >= minlen && occurs_at(b, p, o as int)),
        forall|o: usize| #[trigger] r2.contains(o) <==> (p.len() >= minlen && occurs_at(b, p, o as int)),
    ensures
        r1 == r2,
{
    lemma_sorted_unique(r1, r2);
}

/// Removing a configured gap can only raise the smallest gap, hence the
/// minimum pattern length.  That never adds a result, never introduces
/// an offset where the pattern does not occur, and once the pattern
/// meets both minimum lengths the verified results coincide.
pub proof fn lemma_gap_removal(
    b: Seq<u8>,
    p: Seq<u8>,
    min1: int,
    min2: int,
    r1: Seq<usize>,
    r2: Seq<usize>,
)
    requires
        min1 <= min2,
        forall|o: usize| #[trigger] r1.contains(o) <==> (p.len() >= min1 && occurs_at(b, p, o as int)),
        forall|o: usize| #[trigger] r2.contains(o) <==> (p.len() >= min2 && occurs_at(b, p, o as int)),
    ensures
        forall|o: usize| #[trigger] r2.contains(o) ==> r1.contains(o),
        forall|o: usize| #[trigger] r2.contains(o) ==> occurs_at(b, p, o as int),
        p.len() >= min2 ==> (forall|o: usize| #[trigger] r1.contains(o) <==> r2.contains(o)),
{
}

/// An owning handle around a built index.
pub struct CSIHandle {
    pub inner: Box<CSIIndex>,
}

impl CSIHandle {
    /// Builds an index over a non-empty buffer; an empty buffer, or one
    /// whose tables would not be addressable, yields no handle.
    pub fn create(data: &[u8]) -> (r: Option<CSIHandle>)
        ensures
            match r {
                Some(h) => 1 <= data@.len() && h.inner.wf() && h.inner.text@ == data@,
                None => data@.len() == 0 || data@.len() > usize::MAX / 8,
            },
    {
        let n = data.len();
        if n == 0 || n > usize::MAX / 8 {
            return None;
        }
        Some(CSIHandle { inner: Box::new(CSIIndex::build_from(data)) })
    }
}

} // verus!
