//! Syncmers: a k-mer is a seed when the offset of its least-scoring s-mer is
//! one of the offsets that the configuration accepts.
use crate::packing::{
    lemma_pow4_63, byte_to_bits, lemma_pack_bound, lemma_pack_drop_first, lemma_pack_push, lemma_pack_sub, pack,
    pow4, pow4_table,
};
use crate::metrics::kmer_positions;
use crate::scoring::{hash, kmer_hash, last_argmin, lemma_mask_empty, lemma_mask_or_bit, mask_has};
use vstd::arithmetic::div_mod::lemma_fundamental_div_mod_converse;
use vstd::prelude::*;

verus! {

/// The least s-mer length that the presets leave.
pub const MIN_S: usize = 5;

/// A syncmer configuration: k-mer length `k`, s-mer length `s`, `t`, and the
/// accepted offsets of the least-scoring s-mer as the set bits of `mask`.
pub struct Seeder {
    pub k: usize,
    pub s: usize,
    pub t: usize,
    pub mask: u64,
}

/// The spacing that `new_distance_lower_bound` gets from `t` accepted offsets.
pub open spec fn dlb_stride(reciprocal_density: int, t: int) -> int {
    (reciprocal_density - 1) * t / (t + 1)
}

/// The largest `t` with `MIN_S + t * reciprocal_density <= k + 1`.
pub open spec fn dlb_max_t(k: int, reciprocal_density: int) -> int {
    (k + 1 - MIN_S) / reciprocal_density
}

/// `t` gives the widest spacing among `1..=dlb_max_t`, and is the first to give it.
pub open spec fn dlb_best_t(k: int, reciprocal_density: int, t: int) -> bool {
    &&& 1 <= t <= dlb_max_t(k, reciprocal_density)
    &&& forall|u: int|
        1 <= u <= dlb_max_t(k, reciprocal_density) ==> #[trigger] dlb_stride(reciprocal_density, u)
            <= dlb_stride(reciprocal_density, t)
    &&& forall|u: int|
        1 <= u < t ==> #[trigger] dlb_stride(reciprocal_density, u) < dlb_stride(
            reciprocal_density,
            t,
        )
}

/// The `m`-th accepted offset of a distance-lower-bound layout.
pub open spec fn dlb_offset(stride: int, m: int) -> int {
    (m + 1) * stride + m
}

proof fn lemma_single_bit(p: u64, j: u64)
    requires
        p < 64,
        j < 64,
    ensures
        ((1u64 << p) >> j) & 1 == 1 <==> j == p,
{
    assert(((1u64 << p) >> j) & 1 == 1 <==> j == p) by (bit_vector)
        requires
            p < 64,
            j < 64,
    ;
}

impl Seeder {
    /// The fields fit the packed scan: `1 <= s <= k < 64`.
    pub open spec fn wf(&self) -> bool {
        1 <= self.s <= self.k < 64
    }

    /// The number of k-mers in a sequence of length `n`.
    pub open spec fn window_count(&self, n: int) -> nat {
        if n >= self.k {
            (n - self.k + 1) as nat
        } else {
            0
        }
    }

    /// The packed k-mer that starts at `i`.
    pub open spec fn kmer_at(&self, seq: Seq<u8>, i: int) -> u128 {
        pack(seq.subrange(i, i + self.k)) as u128
    }

    /// The score of the s-mer at offset `j` of the k-mer at `i`.
    pub open spec fn smer_scores(&self, seq: Seq<u8>, i: int) -> spec_fn(int) -> u64 {
        |j: int| kmer_hash(0, pack(seq.subrange(i + j, i + j + self.s)) as u128)
    }

    /// The offset of the least-scoring s-mer of the k-mer at `i` (the last one on ties).
    pub open spec fn min_offset(&self, seq: Seq<u8>, i: int) -> int {
        last_argmin(self.smer_scores(seq, i), (self.k - self.s + 1) as nat)
    }

    /// The k-mer at `i` is a seed.
    pub open spec fn accepts(&self, seq: Seq<u8>, i: int) -> bool {
        mask_has(self.mask, self.min_offset(seq, i))
    }

    /// The accepted offsets are those of `new_distance_lower_bound`: `t >= 1`
    /// offsets `(m + 1) * stride + m`, with `stride = (k - s + 1 - t) / (t + 1)`.
    pub open spec fn dlb_layout(&self) -> bool {
        let stride = (self.k - self.s + 1 - self.t) / (self.t + 1);
        &&& self.t >= 1
        &&& self.t <= self.k - self.s + 1
        &&& forall|j: int| #[trigger]
            mask_has(self.mask, j) <==> exists|m: int|
                0 <= m < self.t && j == #[trigger] dlb_offset(stride, m)
    }

    /// The seeds among the first `p` k-mers, in order.
    pub open spec fn seeds_upto(&self, seq: Seq<u8>, p: nat) -> Seq<(u128, usize)>
        decreases p,
    {
        if p == 0 {
            seq![]
        } else {
            let prev = self.seeds_upto(seq, (p - 1) as nat);
            let i = p - 1;
            if self.accepts(seq, i) {
                prev.push((self.kmer_at(seq, i), i as usize))
            } else {
                prev
            }
        }
    }

    /// The seeds of a whole sequence, in order of position.
    pub open spec fn seeds(&self, seq: Seq<u8>) -> Seq<(u128, usize)> {
        self.seeds_upto(seq, self.window_count(seq.len() as int))
    }

    /// Closed syncmer with the most accepted offsets: `t` is the largest with
    /// `MIN_S + t * w <= k`, `s = k - t * w`, and the offsets `0, w, ..., t * w`.
    pub fn new_optimal_closed_syncmer(k: usize, w: usize) -> (r: Self)
        requires
            k < 64,
            k % 2 == 1,
            w >= 1,
            k >= MIN_S + w,
        ensures
            r.k == k,
            r.t == (k - MIN_S) / (w as int),
            r.s == k - r.t * w,
            forall|j: int| #[trigger]
                mask_has(r.mask, j) <==> exists|m: int| 0 <= m <= r.t && j == #[trigger] (m * w),
            r.wf(),
    {
        let mut t: usize = 0;
        while k - t * w >= MIN_S + w
            invariant
                k < 64,
                w >= 1,
                w <= k,
                MIN_S + t * w <= k,
            decreases k - t * w,
        {
            proof {
                assert((t + 1) * w == t * w + w) by (nonlinear_arith);
                assert(t <= t * w) by (nonlinear_arith)
                    requires
                        w >= 1,
                ;
            }
            t += 1;
        }
        proof {
            assert((t + 1) * w == t * w + w) by (nonlinear_arith);
            lemma_fundamental_div_mod_converse(
                (k - MIN_S) as int,
                w as int,
                t as int,
                (k - MIN_S - t * w) as int,
            );
            assert(t <= t * w) by (nonlinear_arith)
                requires
                    w >= 1,
            ;
        }
        let s = k - t * w;
        let mut mask: u64 = 0;
        proof {
            assert forall|j: int| 0 <= j < 64 implies !mask_has(0u64, j) by {
                lemma_mask_empty(j as u64);
            }
        }
        let mut i: usize = 0;
        while i <= t
            invariant
                MIN_S + t * w <= k < 64,
                w >= 1,
                t < 64,
                i <= t + 1,
                forall|j: int|
                    #![trigger mask_has(mask, j)]
                    0 <= j < 64 ==> (mask_has(mask, j) <==> exists|m: int|
                        0 <= m < i && j == #[trigger] (m * w)),
            decreases t + 1 - i,
        {
            proof {
                assert(i * w <= t * w) by (nonlinear_arith)
                    requires
                        i <= t,
                ;
            }
            let p: usize = i * w;
            let old_mask = mask;
            mask = mask | (1u64 << (p as u64));
            proof {
                assert forall|j: int| 0 <= j < 64 implies (mask_has(mask, j) <==> exists|m: int|
                    0 <= m < i + 1 && j == #[trigger] (m * w)) by {
                    lemma_mask_or_bit(old_mask, p as u64, j as u64);
                    assert(mask_has(mask, j) <==> (mask_has(old_mask, j) || j == p));
                    if mask_has(mask, j) {
                        if mask_has(old_mask, j) {
                            let m = choose|m: int| 0 <= m < i && j == #[trigger] (m * w);
                            assert(0 <= m < i + 1 && j == m * w);
                        } else {
                            assert(j == i * w);
                            assert(0 <= i < i + 1 && j == i * w);
                        }
                    }
                    if exists|m: int| 0 <= m < i + 1 && j == #[trigger] (m * w) {
                        let m = choose|m: int| 0 <= m < i + 1 && j == #[trigger] (m * w);
                        if m < i {
                            assert(0 <= m < i && j == m * w);
                            assert(mask_has(old_mask, j));
                        } else {
                            assert(j == p);
                        }
                    }
                }
            }
            i += 1;
        }
        proof {
            assert forall|j: int| #[trigger]
                mask_has(mask, j) <==> exists|m: int| 0 <= m <= t && j == #[trigger] (m * w) by {
                if exists|m: int| 0 <= m <= t && j == #[trigger] (m * w) {
                    let m = choose|m: int| 0 <= m <= t && j == #[trigger] (m * w);
                    assert(m * w <= t * w) by (nonlinear_arith)
                        requires
                            m <= t,
                            0 <= m,
                    ;
                }
            }
        }
        Seeder { k, s, t, mask }
    }

    /// Closed syncmer: `s = k - w`, `t = 1`, accepting the first and the last offset.
    pub fn new_closed_syncmer(k: usize, w: usize) -> (r: Self)
        requires
            k < 64,
            k % 2 == 1,
            w < k,
        ensures
            r.k == k,
            r.s == k - w,
            r.t == 1,
            forall|j: int| #[trigger] mask_has(r.mask, j) <==> (j == 0 || j == w),
            r.wf(),
    {
        let s = k - w;
        let mut mask: u64 = 0;
        proof {
            assert forall|j: int| 0 <= j < 64 implies !mask_has(0u64, j) by {
                lemma_mask_empty(j as u64);
            }
        }
        let ghost m0 = mask;
        mask = mask | (1u64 << 0u64);
        let ghost m1 = mask;
        mask = mask | (1u64 << (w as u64));
        proof {
            assert forall|j: int| #[trigger] mask_has(mask, j) <==> (j == 0 || j == w) by {
                if 0 <= j < 64 {
                    lemma_mask_empty(j as u64);
                    lemma_mask_or_bit(m0, 0, j as u64);
                    lemma_mask_or_bit(m1, w as u64, j as u64);
                    assert(mask_has(m1, j) <==> j == 0);
                }
            }
        }
        Seeder { k, s, t: 1, mask }
    }

    /// The syncmer whose accepted offsets are spread as widely as possible:
    /// of the `t` in `1..=dlb_max_t`, the first with the widest spacing
    /// `(reciprocal_density - 1) * t / (t + 1)`; then `s = k + 1 - t * reciprocal_density`
    /// and the offsets `(m + 1) * stride + m` for `m < t`.
    pub fn new_distance_lower_bound(k: usize, reciprocal_density: usize) -> (r: Self)
        requires
            k < 64,
            k % 2 == 1,
            reciprocal_density >= 1,
            k + 1 >= MIN_S + reciprocal_density,
        ensures
            r.k == k,
            dlb_best_t(k as int, reciprocal_density as int, r.t as int),
            r.s == k + 1 - r.t * reciprocal_density,
            forall|j: int| #[trigger]
                mask_has(r.mask, j) <==> exists|m: int|
                    0 <= m < r.t && j == #[trigger] dlb_offset(
                        dlb_stride(reciprocal_density as int, r.t as int),
                        m,
                    ),
            r.wf(),
            r.dlb_layout(),
    {
        let rd = reciprocal_density;
        let ghost kk = k as int;
        let ghost rdi = rd as int;
        let mut t: usize = 0;
        let mut best_t: usize = 0;
        let mut best_stride: usize = 0;
        while k + 1 - t * rd >= MIN_S + rd
            invariant
                k < 64,
                1 <= rd <= k,
                MIN_S + t * rd <= k + 1,
                t >= 1 ==> 1 <= best_t <= t,
                t >= 1 ==> best_stride == dlb_stride(rdi, best_t as int),
                t >= 1 ==> forall|u: int| 1 <= u <= t ==> #[trigger] dlb_stride(rdi, u) <= best_stride,
                t >= 1 ==> forall|u: int| 1 <= u < best_t ==> #[trigger] dlb_stride(rdi, u) < best_stride,
                rdi == rd,
                kk == k,
                k + 1 >= MIN_S + rd,
            decreases k + 1 - t * rd,
        {
            proof {
                assert((t + 1) * rd == t * rd + rd) by (nonlinear_arith);
                assert(t <= t * rd) by (nonlinear_arith)
                    requires
                        rd >= 1,
                ;
                assert((rd - 1) * (t + 1) <= 64 * 65) by (nonlinear_arith)
                    requires
                        rd <= 64,
                        t + 1 <= 65,
                ;
            }
            t += 1;
            let curr_stride = (rd - 1) * t / (t + 1);
            assert(curr_stride == dlb_stride(rdi, t as int));
            if t == 1 || curr_stride > best_stride {
                best_t = t;
                best_stride = curr_stride;
            }
        }
        proof {
            assert((t + 1) * rd == t * rd + rd) by (nonlinear_arith);
            lemma_fundamental_div_mod_converse(
                (k + 1 - MIN_S) as int,
                rd as int,
                t as int,
                (k + 1 - MIN_S - t * rd) as int,
            );
            assert(t == dlb_max_t(kk, rdi));
            assert(best_t * rd <= t * rd) by (nonlinear_arith)
                requires
                    best_t <= t,
            ;
        }
        let t = best_t;
        let s = k + 1 - t * rd;
        proof {
            assert(t * rd - t == (rd - 1) * t) by (nonlinear_arith);
            assert(t <= t * rd) by (nonlinear_arith)
                requires
                    rd >= 1,
            ;
        }
        let stride = (k - s + 1 - t) / (t + 1);
        let ghost st = dlb_stride(rdi, t as int);
        proof {
            assert(stride == st);
            assert(stride * (t + 1) <= t * rd - t) by (nonlinear_arith)
                requires
                    stride == (t * rd - t) / (t + 1),
                    t >= 1,
                    t * rd >= t,
            ;
        }
        let mut mask: u64 = 0;
        proof {
            assert forall|j: int| 0 <= j < 64 implies !mask_has(0u64, j) by {
                lemma_mask_empty(j as u64);
            }
        }
        let mut i: usize = 0;
        while i < t
            invariant
                1 <= t < 64,
                MIN_S + t * rd <= k + 1,
                k < 64,
                stride == st,
                stride * (t + 1) <= t * rd - t,
                i <= t,
                forall|j: int|
                    #![trigger mask_has(mask, j)]
                    0 <= j < 64 ==> (mask_has(mask, j) <==> exists|m: int|
                        0 <= m < i && j == #[trigger] dlb_offset(st, m)),
            decreases t - i,
        {
            proof {
                assert((i + 1) * stride + i < 64) by (nonlinear_arith)
                    requires
                        i < t,
                        stride * (t + 1) <= t * rd - t,
                        MIN_S + t * rd <= k + 1,
                        k < 64,
                ;
            }
            let p: usize = (i + 1) * stride + i;
            assert(p == dlb_offset(st, i as int));
            let old_mask = mask;
            mask = mask | (1u64 << (p as u64));
            proof {
                assert forall|j: int| 0 <= j < 64 implies (mask_has(mask, j) <==> exists|m: int|
                    0 <= m < i + 1 && j == #[trigger] dlb_offset(st, m)) by {
                    lemma_mask_or_bit(old_mask, p as u64, j as u64);
                    assert(mask_has(mask, j) <==> (mask_has(old_mask, j) || j == p));
                    if mask_has(mask, j) {
                        if mask_has(old_mask, j) {
                            let m = choose|m: int| 0 <= m < i && j == #[trigger] dlb_offset(st, m);
                            assert(0 <= m < i + 1 && j == dlb_offset(st, m));
                        } else {
                            assert(0 <= i < i + 1 && j == dlb_offset(st, i as int));
                        }
                    }
                    if exists|m: int| 0 <= m < i + 1 && j == #[trigger] dlb_offset(st, m) {
                        let m = choose|m: int| 0 <= m < i + 1 && j == #[trigger] dlb_offset(st, m);
                        if m < i {
                            assert(0 <= m < i && j == dlb_offset(st, m));
                            assert(mask_has(old_mask, j));
                        } else {
                            assert(j == p);
                        }
                    }
                }
            }
            i += 1;
        }
        proof {
            assert forall|j: int| #[trigger]
                mask_has(mask, j) <==> exists|m: int| 0 <= m < t && j == #[trigger] dlb_offset(st, m) by {
                if exists|m: int| 0 <= m < t && j == #[trigger] dlb_offset(st, m) {
                    let m = choose|m: int| 0 <= m < t && j == #[trigger] dlb_offset(st, m);
                    assert((m + 1) * stride + m < 64) by (nonlinear_arith)
                        requires
                            0 <= m < t,
                            stride * (t + 1) <= t * rd - t,
                            MIN_S + t * rd <= k + 1,
                            k < 64,
                    ;
                    assert(0 <= dlb_offset(st, m)) by (nonlinear_arith)
                        requires
                            0 <= m,
                            st >= 0,
                    ;
                }
            }
        }
        Seeder { k, s, t, mask }
    }

    /// The least gap `(k - s + 1 - t) / (t + 1) + 1` between two seeds that the
    /// spacing of the accepted offsets guarantees.
    pub open spec fn spec_distance_lower_bound(&self) -> int {
        (self.k - self.s + 1 - self.t) / (self.t + 1) + 1
    }

    /// The guaranteed least gap between consecutive seeds of this configuration.
    pub fn distance_lower_bound(&self) -> (r: usize)
        requires
            self.wf(),
            self.t <= self.k - self.s + 1,
        ensures
            r == self.spec_distance_lower_bound(),
    {
        (self.k - self.s + 1 - self.t) / (self.t + 1) + 1
    }

    /// Open syncmer accepting offset 0 only: `s = k - reciprocal_density + 1`, `t = 0`.
    pub fn new_start(k: usize, reciprocal_density: usize) -> (r: Self)
        requires
            1 <= reciprocal_density <= k < 64,
            k % 2 == 1,
        ensures
            r.k == k,
            r.s == k - reciprocal_density + 1,
            r.t == 0,
            forall|j: int| #[trigger] mask_has(r.mask, j) <==> j == 0,
            r.wf(),
    {
        proof {
            assert forall|j: int| #[trigger] mask_has(1u64, j) <==> j == 0 by {
                if 0 <= j < 64 {
                    let ju = j as u64;
                    assert((1u64 >> ju) & 1 == 1 <==> ju == 0) by (bit_vector);
                }
            }
        }
        Seeder { k, s: k - reciprocal_density + 1, t: 0, mask: 0b1 }
    }

    /// Open syncmer accepting the middle offset `(reciprocal_density - 1) / 2` only:
    /// `s = k - reciprocal_density + 1`, `t = 1`.
    pub fn new_mid(k: usize, reciprocal_density: usize) -> (r: Self)
        requires
            1 <= reciprocal_density <= k < 64,
            k % 2 == 1,
        ensures
            r.k == k,
            r.s == k - reciprocal_density + 1,
            r.t == 1,
            forall|j: int| #[trigger]
                mask_has(r.mask, j) <==> j == (reciprocal_density - 1) / 2,
            r.wf(),
    {
        let p = (reciprocal_density - 1) / 2;
        let mask: u64 = 1u64 << (p as u64);
        proof {
            assert forall|j: int| #[trigger] mask_has(mask, j) <==> j == p by {
                if 0 <= j < 64 {
                    lemma_single_bit(p as u64, j as u64);
                }
            }
        }
        Seeder { k, s: k - reciprocal_density + 1, t: 1, mask }
    }

    /// Appends to `res` each seed of `seq`, as (packed k-mer, start position),
    /// in order of position. A sequence shorter than `k` has none.
    pub fn get_seeds(&self, seq: &[u8], res: &mut Vec<(u128, usize)>)
        requires
            self.wf(),
        ensures
            final(res)@ == old(res)@ + self.seeds(seq@),
    {
        let k = self.k;
        let s = self.s;
        if seq.len() < k {
            assert(old(res)@ + self.seeds(seq@) =~= old(res)@);
            return;
        }
        let pows = pow4_table(k);
        let s_mod = pows[s];
        let drop_mod = pows[k - 1];
        let mut prefix: u128 = 0;
        let mut p: usize = 0;
        while p < k - 1
            invariant
                1 <= k <= seq@.len(),
                k < 64,
                p <= k - 1,
                prefix as nat == pack(seq@.subrange(0, p as int)),
            decreases k - 1 - p,
        {
            let c = byte_to_bits(seq[p]);
            proof {
                assert(seq@.subrange(0, p + 1) =~= seq@.subrange(0, p as int).push(seq@[p as int]));
                lemma_pack_push(seq@.subrange(0, p as int), seq@[p as int]);
                lemma_pack_bound(seq@.subrange(0, p as int));
                crate::packing::lemma_pow4_monotonic(p as nat, 62);
                lemma_pow4_63();
            }
            prefix = prefix * 4 + c as u128;
            p += 1;
        }
        let n_windows = seq.len() - k + 1;
        let ghost old_res = old(res)@;
        let mut i: usize = 0;
        while i < n_windows
            invariant
                self.wf(),
                k == self.k,
                s == self.s,
                n_windows == seq@.len() - k + 1,
                seq@.len() <= usize::MAX,
                n_windows == self.window_count(seq@.len() as int),
                i <= n_windows,
                pows.len() == k + 1,
                forall|e: int| 0 <= e <= k ==> pows@[e] as nat == pow4(e as nat),
                s_mod as nat == pow4(s as nat),
                drop_mod as nat == pow4((k - 1) as nat),
                prefix as nat == pack(seq@.subrange(i as int, i + k - 1)),
                res@ == old_res + self.seeds_upto(seq@, i as nat),
            decreases n_windows - i,
        {
            let ghost win = seq@.subrange(i as int, i + k);
            let c = byte_to_bits(seq[i + (k - 1)]);
            proof {
                let pre = seq@.subrange(i as int, i + k - 1);
                assert(win =~= pre.push(seq@[i + k - 1]));
                lemma_pack_push(pre, seq@[i + k - 1]);
                lemma_pack_bound(pre);
                lemma_pack_bound(win);
                crate::packing::lemma_pow4_monotonic(k as nat, 63);
                lemma_pow4_63();
            }
            let kmer: u128 = prefix * 4 + c as u128;
            assert(kmer == self.kmer_at(seq@, i as int));
            let ghost f = self.smer_scores(seq@, i as int);
            let mut s_min: u64 = u64::MAX;
            let mut s_idx: usize = 0;
            let mut j: usize = 0;
            while j <= k - s
                invariant
                    self.wf(),
                    k == self.k,
                    s == self.s,
                    i + k <= seq@.len(),
                    win == seq@.subrange(i as int, i + k),
                    kmer as nat == pack(win),
                    f == self.smer_scores(seq@, i as int),
                    pows.len() == k + 1,
                    forall|e: int| 0 <= e <= k ==> pows@[e] as nat == pow4(e as nat),
                    s_mod as nat == pow4(s as nat),
                    j <= k - s + 1,
                    j == 0 ==> s_min == u64::MAX,
                    j >= 1 ==> s_idx == last_argmin(f, j as nat) && s_min == f(s_idx as int),
                decreases k - s + 1 - j,
            {
                let div = pows[k - s - j];
                proof {
                    lemma_pack_sub(win, j as int, s as nat);
                    assert(win.subrange(j as int, j + s) =~= seq@.subrange(i + j, i + j + s));
                    crate::packing::lemma_pow4_positive((k - s - j) as nat);
                    crate::packing::lemma_pow4_positive(s as nat);
                }
                let s_mer: u128 = (kmer / div) % s_mod;
                let s_hash = hash(0, s_mer);
                assert(s_hash == f(j as int));
                if s_hash <= s_min {
                    s_min = s_hash;
                    s_idx = j;
                }
                j += 1;
            }
            proof {
                assert(s_idx == self.min_offset(seq@, i as int));
                crate::scoring::lemma_last_argmin(f, (k - s + 1) as nat);
            }
            let mask = self.mask;
            let bit = (mask >> (s_idx as u64)) & 1;
            if bit > 0 {
                proof {
                    assert(bit == 1) by (bit_vector)
                        requires
                            bit == (mask >> (s_idx as u64)) & 1,
                            bit > 0,
                    ;
                }
                res.push((kmer, i));
            } else {
            }
            assert(res@ == old_res + self.seeds_upto(seq@, (i + 1) as nat));
            proof {
                lemma_pack_drop_first(win);
                assert(win.subrange(1, k as int) =~= seq@.subrange(i + 1, i + 1 + k - 1));
            }
            prefix = kmer % drop_mod;
            i += 1;
        }
    }
}

/// Seeds come in strictly increasing order of position; each is the packed
/// k-mer at its position, and that k-mer is accepted. There are at most `p`
/// among the first `p` k-mers.
pub proof fn lemma_seeds_ordered(sd: Seeder, seq: Seq<u8>, p: nat)
    requires
        p <= usize::MAX + 1,
    ensures
        sd.seeds_upto(seq, p).len() <= p,
        forall|a: int, b: int|
            0 <= a < b < sd.seeds_upto(seq, p).len() ==> #[trigger] sd.seeds_upto(seq, p)[a].1
                < #[trigger] sd.seeds_upto(seq, p)[b].1,
        forall|a: int|
            0 <= a < sd.seeds_upto(seq, p).len() ==> {
                let e = #[trigger] sd.seeds_upto(seq, p)[a];
                &&& e.1 < p
                &&& sd.accepts(seq, e.1 as int)
                &&& e.0 == sd.kmer_at(seq, e.1 as int)
            },
    decreases p,
{
    if p > 0 {
        lemma_seeds_ordered(sd, seq, (p - 1) as nat);
    }
}

/// Every seed list that a scan produces has strictly increasing positions.
pub proof fn lemma_seed_positions_increase(sd: Seeder, seq: Seq<u8>)
    requires
        seq.len() <= usize::MAX,
    ensures
        forall|a: int, b: int|
            0 <= a < b < sd.seeds(seq).len() ==> #[trigger] sd.seeds(seq)[a].1
                < #[trigger] sd.seeds(seq)[b].1,
{
    lemma_seeds_ordered(sd, seq, sd.window_count(seq.len() as int));
}

/// A scan yields no more seeds than there are k-mers, so the density
/// `|seeds| / (n - k + 1)` is at most 1.
pub proof fn lemma_seed_count_bound(sd: Seeder, seq: Seq<u8>)
    requires
        seq.len() <= usize::MAX,
    ensures
        sd.seeds(seq).len() <= sd.window_count(seq.len() as int),
        sd.seeds(seq).len() <= kmer_positions(seq.len() as int, sd.k as int),
{
    lemma_seeds_ordered(sd, seq, sd.window_count(seq.len() as int));
}

/// A sequence shorter than `k` has no seeds.
pub proof fn lemma_short_sequence_no_seeds(sd: Seeder, seq: Seq<u8>)
    requires
        seq.len() < sd.k,
    ensures
        sd.seeds(seq).len() == 0,
{
}

/// Scanning is deterministic: equal sequences give equal seed lists under
/// one configuration.
pub proof fn lemma_scan_deterministic(sd: Seeder, seq1: Seq<u8>, seq2: Seq<u8>)
    requires
        seq1 == seq2,
    ensures
        sd.seeds(seq1) == sd.seeds(seq2),
{
}

/// Two accepted k-mers of a distance-lower-bound layout start at least
/// `distance_lower_bound` apart.
proof fn lemma_accepted_apart(sd: Seeder, seq: Seq<u8>, i: int, i2: int)
    requires
        sd.wf(),
        sd.dlb_layout(),
        0 <= i < i2,
        i2 + sd.k <= seq.len(),
        sd.accepts(seq, i),
        sd.accepts(seq, i2),
    ensures
        i2 - i >= sd.spec_distance_lower_bound(),
{
    let n = sd.k - sd.s + 1;
    let t = sd.t as int;
    let stride = (sd.k - sd.s + 1 - sd.t) / (sd.t + 1);
    let d = stride + 1;
    let delta = i2 - i;
    if delta < d {
        let f = sd.smer_scores(seq, i);
        let f2 = sd.smer_scores(seq, i2);
        let o = sd.min_offset(seq, i);
        let o2 = sd.min_offset(seq, i2);
        crate::scoring::lemma_last_argmin(f, n as nat);
        crate::scoring::lemma_last_argmin(f2, n as nat);
        assert(mask_has(sd.mask, o));
        assert(mask_has(sd.mask, o2));
        let m = choose|m: int| 0 <= m < t && o == #[trigger] dlb_offset(stride, m);
        let m2 = choose|m: int| 0 <= m < t && o2 == #[trigger] dlb_offset(stride, m);
        assert(stride * (t + 1) <= n - t) by (nonlinear_arith)
            requires
                stride == (n - t) / (t + 1),
                t >= 1,
                n >= t,
        ;
        assert(stride <= o <= t * stride + t - 1 && stride <= o2 <= t * stride + t - 1) by (nonlinear_arith)
            requires
                o == (m + 1) * stride + m,
                o2 == (m2 + 1) * stride + m2,
                0 <= m < t,
                0 <= m2 < t,
                stride >= 0,
        ;
        // both least s-mers lie in both k-mers
        let a = i + o;
        let a2 = i2 + o2;
        assert(0 <= a - i2 < n);
        assert(t * stride + stride == stride * (t + 1)) by (nonlinear_arith);
        assert(0 <= a2 - i < n);
        assert(f(a2 - i) == f2(o2));
        assert(f2(a - i2) == f(o));
        if a < a2 {
            assert(f(a2 - i) > f(o));
            assert(f2(a - i2) >= f2(o2));
        } else if a2 < a {
            assert(f2(a - i2) > f2(o2));
            assert(f(a2 - i) >= f(o));
        } else {
            assert((m - m2) * d == delta) by (nonlinear_arith)
                requires
                    i + (m + 1) * stride + m == i2 + (m2 + 1) * stride + m2,
                    d == stride + 1,
                    delta == i2 - i,
            ;
            assert(false) by (nonlinear_arith)
                requires
                    (m - m2) * d == delta,
                    0 < delta < d,
            ;
        }
    }
}

/// Under a distance-lower-bound configuration, consecutive seeds of a scan
/// start at least `distance_lower_bound()` apart.
pub proof fn lemma_seed_gaps_at_least_bound(sd: Seeder, seq: Seq<u8>)
    requires
        sd.wf(),
        sd.dlb_layout(),
        seq.len() <= usize::MAX,
    ensures
        forall|a: int|
            0 <= a < sd.seeds(seq).len() - 1 ==> sd.seeds(seq)[a + 1].1 - (#[trigger] sd.seeds(
                seq,
            )[a]).1 >= sd.spec_distance_lower_bound(),
{
    let p = sd.window_count(seq.len() as int);
    lemma_seeds_ordered(sd, seq, p);
    assert forall|a: int|
        0 <= a < sd.seeds(seq).len() - 1 implies sd.seeds(seq)[a + 1].1 - (#[trigger] sd.seeds(
            seq,
        )[a]).1 >= sd.spec_distance_lower_bound() by {
        let e = sd.seeds(seq)[a];
        let e2 = sd.seeds(seq)[a + 1];
        assert(e.1 < e2.1);
        lemma_accepted_apart(sd, seq, e.1 as int, e2.1 as int);
    }
}

} // verus!
