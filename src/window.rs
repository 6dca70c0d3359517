//! Window minimizers: each window of `l = k + w - 1` bases selects one of its
//! `w` k-mers; consecutive repeats of the same selection are kept once.
use crate::scoring::{
    bytes_hash, first_argmin, hash_slice, is_first_min, is_last_min, last_argmin,
    lemma_first_argmin, lemma_first_min_unique, lemma_last_argmin, lemma_last_min_unique,
    lemma_mod_step_back,
};
use crate::metrics::kmer_positions;
use vstd::prelude::*;
use vstd::slice::slice_to_vec;

verus! {

/// The least s-mer length of a mod-minimizer.
pub const MIN_S_MOD: usize = 4;

/// Appends `e` unless it repeats the last entry.
pub open spec fn push_new(acc: Seq<(Seq<u8>, usize)>, e: (Seq<u8>, usize)) -> Seq<
    (Seq<u8>, usize),
> {
    if acc.len() > 0 && acc.last() == e {
        acc
    } else {
        acc.push(e)
    }
}

/// The bytes and the position of each seed.
pub open spec fn seeds_view(v: Seq<(Vec<u8>, usize)>) -> Seq<(Seq<u8>, usize)> {
    v.map_values(|e: (Vec<u8>, usize)| (e.0@, e.1))
}

/// `t = (k + w - MIN_S_MOD) / w` of the density estimate for width `w`.
pub open spec fn dw_t(k: int, w: int) -> int {
    (k + w - MIN_S_MOD) / w
}

/// The density estimate `(t + 1) / (t * w + 1)` for width `w`: its numerator.
pub open spec fn dw_num(k: int, w: int) -> int {
    dw_t(k, w) + 1
}

/// The density estimate for width `w`: its denominator.
pub open spec fn dw_den(k: int, w: int) -> int {
    dw_t(k, w) * w + 1
}

/// The estimate for width `a` is strictly below the one for width `b`.
pub open spec fn dw_below(k: int, a: int, b: int) -> bool {
    dw_num(k, a) * dw_den(k, b) < dw_num(k, b) * dw_den(k, a)
}

/// The least width that `new_dw` tries: `w / 2`, and at least 1.
pub open spec fn dw_low(w: int) -> int {
    if w / 2 >= 1 {
        w / 2
    } else {
        1
    }
}

/// `bw` has the least estimate among the widths `dw_low(w)..=w`, and is the
/// largest such width.
pub open spec fn dw_choice(k: int, w: int, bw: int) -> bool {
    &&& dw_low(w) <= bw <= w
    &&& forall|u: int| dw_low(w) <= u <= w ==> !#[trigger] dw_below(k, u, bw)
    &&& forall|u: int| bw < u <= w ==> #[trigger] dw_below(k, bw, u)
}

proof fn lemma_dw_den_positive(k: int, w: int)
    requires
        k >= MIN_S_MOD,
        w >= 1,
    ensures
        dw_t(k, w) >= 0,
        dw_den(k, w) >= 1,
{
    let t = dw_t(k, w);
    assert(t * w >= 0) by (nonlinear_arith)
        requires
            t >= 0,
            w >= 1,
    ;
}

proof fn lemma_dw_trans(k: int, a: int, b: int, c: int)
    requires
        k >= MIN_S_MOD,
        a >= 1,
        b >= 1,
        c >= 1,
        dw_below(k, a, b),
        !dw_below(k, c, b),
    ensures
        dw_below(k, a, c),
{
    lemma_dw_den_positive(k, a);
    lemma_dw_den_positive(k, b);
    lemma_dw_den_positive(k, c);
    let (na, da) = (dw_num(k, a), dw_den(k, a));
    let (nb, db) = (dw_num(k, b), dw_den(k, b));
    let (nc, dc) = (dw_num(k, c), dw_den(k, c));
    assert(na * dc < nc * da) by (nonlinear_arith)
        requires
            na * db < nb * da,
            nc * db >= nb * dc,
            da >= 1,
            db >= 1,
            dc >= 1,
    ;
}

/// `x - x mod w + w` is a multiple of `w`.
proof fn lemma_aligned(x: int, w: int)
    requires
        x >= 0,
        w >= 1,
    ensures
        (x - x % w + w) % w == 0,
{
    vstd::arithmetic::div_mod::lemma_fundamental_div_mod(x, w);
    assert(x - x % w + w == (x / w + 1) * w) by (nonlinear_arith)
        requires
            x == w * (x / w) + x % w,
    ;
    vstd::arithmetic::div_mod::lemma_fundamental_div_mod_converse(
        x - x % w + w,
        w,
        x / w + 1,
        0,
    );
}

/// A mod-minimizer: in each window of `l` bases, the least-scoring s-mer at
/// offset `x` selects the k-mer at offset `x mod w`.
pub struct ModMinimizer {
    pub k: usize,
    pub w: usize,
    pub s: usize,
    pub l: usize,
}

impl ModMinimizer {
    /// Every selected k-mer lies inside its window.
    pub open spec fn wf(&self) -> bool {
        &&& self.w >= 1
        &&& self.k >= 1
        &&& 1 <= self.s <= self.l
        &&& self.k + self.w <= self.l + 1
    }

    /// The number of windows in a sequence of length `n`.
    pub open spec fn window_count(&self, n: int) -> nat {
        if n >= self.l {
            (n - self.l + 1) as nat
        } else {
            0
        }
    }

    /// The number of s-mers in a window is a multiple of `w`, so that an
    /// s-mer entering at the end selects the window's last k-mer.
    pub open spec fn aligned(&self) -> bool {
        (self.l - self.s + 1) % (self.w as int) == 0
    }

    /// The score of the s-mer at offset `j` of the window at `i`.
    pub open spec fn smer_scores(&self, seq: Seq<u8>, i: int) -> spec_fn(int) -> u64 {
        |j: int| bytes_hash(0, seq.subrange(i + j, i + j + self.s))
    }

    /// The offset, within the window at `i`, of the selected k-mer.
    pub open spec fn kmer_offset(&self, seq: Seq<u8>, i: int) -> int {
        last_argmin(self.smer_scores(seq, i), (self.l - self.s + 1) as nat) % (self.w as int)
    }

    /// The selection of the window at `i`: the k-mer's bytes and its position.
    pub open spec fn selection(&self, seq: Seq<u8>, i: int) -> (Seq<u8>, usize) {
        let p = i + self.kmer_offset(seq, i);
        (seq.subrange(p, p + self.k), p as usize)
    }

    /// `acc` followed by the selections of the first `p` windows, repeats kept once.
    pub open spec fn seeds_upto(&self, acc: Seq<(Seq<u8>, usize)>, seq: Seq<u8>, p: nat) -> Seq<
        (Seq<u8>, usize),
    >
        decreases p,
    {
        if p == 0 {
            acc
        } else {
            push_new(self.seeds_upto(acc, seq, (p - 1) as nat), self.selection(seq, p - 1))
        }
    }

    /// `acc` followed by the seeds of `seq`.
    pub open spec fn seeds(&self, acc: Seq<(Seq<u8>, usize)>, seq: Seq<u8>) -> Seq<(Seq<u8>, usize)> {
        self.seeds_upto(acc, seq, self.window_count(seq.len() as int))
    }

    /// `l = k + w - 1` and `s = MIN_S_MOD + (k - MIN_S_MOD) mod w`.
    pub fn new_original(k: usize, w: usize) -> (r: Self)
        requires
            w >= 1,
            k >= MIN_S_MOD,
            k + w <= usize::MAX,
        ensures
            r.k == k,
            r.w == w,
            r.l == k + w - 1,
            r.s == MIN_S_MOD + (k - MIN_S_MOD) % (w as int),
            r.wf(),
            r.aligned(),
    {
        proof {
            lemma_aligned(k - MIN_S_MOD, w as int);
        }
        let l = k + w - 1;
        let s = MIN_S_MOD + (k - MIN_S_MOD) % w;
        ModMinimizer { k, w, s, l }
    }

    /// Like `new_original` for the width, among `dw_low(w)..=w`, with the least
    /// density estimate (the largest on ties); `l` stays `k + w - 1` and `s` is
    /// derived for the k-mer length `l + 1 - w'` that the chosen width `w'` leaves.
    pub fn new_dw(k: usize, w: usize) -> (r: Self)
        requires
            w >= 1,
            k >= MIN_S_MOD,
            k + w <= 0xffff_ffff,
        ensures
            r.k == k,
            r.l == k + w - 1,
            dw_choice(k as int, w as int, r.w as int),
            r.s == MIN_S_MOD + (r.l + 1 - r.w - MIN_S_MOD) % (r.w as int),
            r.wf(),
            r.aligned(),
    {
        let l = k + w - 1;
        let ghost ki = k as int;
        let ghost wi = w as int;
        let mut w2: usize = w;
        let mut best_w: usize = 0;
        let mut best_num: u128 = 0;
        let mut best_den: u128 = 0;
        while w2 > 0 && w2 >= w / 2
            invariant
                w >= 1,
                k >= MIN_S_MOD,
                k + w <= 0xffff_ffff,
                ki == k,
                wi == w,
                w2 <= w,
                w2 + 1 >= dw_low(wi),
                w2 == w <==> best_w == 0,
                w2 < w ==> w2 < best_w <= w,
                w2 < w ==> best_num == dw_num(ki, best_w as int),
                w2 < w ==> best_den == dw_den(ki, best_w as int),
                forall|u: int| w2 < u <= w ==> !#[trigger] dw_below(ki, u, best_w as int),
                w2 < w ==> forall|u: int| best_w < u <= w ==> #[trigger] dw_below(ki, best_w as int, u),
                best_num <= 0x2_0000_0000,
                best_den <= 0x2_0000_0000,
            decreases w2,
        {
            let t = (k + w2 - MIN_S_MOD) / w2;
            proof {
                lemma_dw_den_positive(ki, w2 as int);
                assert(t * w2 <= k + w2) by (nonlinear_arith)
                    requires
                        t == (k + w2 - MIN_S_MOD) / (w2 as int),
                        w2 >= 1,
                        k + w2 >= MIN_S_MOD,
                ;
            }
            let num: u128 = (t + 1) as u128;
            let den: u128 = (t as u128) * (w2 as u128) + 1;
            assert(num == dw_num(ki, w2 as int) && den == dw_den(ki, w2 as int));
            let mut take = best_w == 0;
            if !take {
                proof {
                    lemma_dw_den_positive(ki, best_w as int);
                    assert(num * best_den <= 0x2_0000_0000 * 0x2_0000_0000) by (nonlinear_arith)
                        requires
                            num <= 0x2_0000_0000,
                            best_den <= 0x2_0000_0000,
                    ;
                    assert(best_num * den <= 0x2_0000_0000 * 0x2_0000_0000) by (nonlinear_arith)
                        requires
                            best_num <= 0x2_0000_0000,
                            den <= 0x2_0000_0000,
                    ;
                }
                take = num * best_den < best_num * den;
            }
            if take {
                proof {
                    assert forall|u: int| w2 < u <= w implies #[trigger] dw_below(ki, w2 as int, u) by {
                        if u != best_w {
                            lemma_dw_trans(ki, w2 as int, best_w as int, u);
                        }
                    }
                    assert forall|u: int| w2 - 1 < u <= w implies !#[trigger] dw_below(ki, u, w2 as int) by {
                        if u > w2 {
                            lemma_dw_den_positive(ki, u);
                            lemma_dw_den_positive(ki, w2 as int);
                            assert(dw_below(ki, w2 as int, u));
                        }
                    }
                }
                best_w = w2;
                best_num = num;
                best_den = den;
            }
            w2 -= 1;
        }
        let best_k = l + 1 - best_w;
        proof {
            lemma_aligned(best_k - MIN_S_MOD, best_w as int);
        }
        let s = MIN_S_MOD + (best_k - MIN_S_MOD) % best_w;
        ModMinimizer { k, w: best_w, s, l }
    }

    /// Appends to `res` the seeds of `seq`, as (k-mer bytes, position): one
    /// selection per window of `l` bases, left to right, each dropped where it
    /// repeats the entry before it. A sequence shorter than `l` has none.
    pub fn get_seeds(&self, seq: &[u8], res: &mut Vec<(Vec<u8>, usize)>)
        requires
            self.wf(),
        ensures
            seeds_view(final(res)@) == self.seeds(seeds_view(old(res)@), seq@),
    {
        let l = self.l;
        let s = self.s;
        let k = self.k;
        let w = self.w;
        if seq.len() < l {
            return;
        }
        let n_windows = seq.len() - l + 1;
        let ghost acc = seeds_view(old(res)@);
        let mut i: usize = 0;
        while i < n_windows
            invariant
                self.wf(),
                l == self.l,
                s == self.s,
                k == self.k,
                w == self.w,
                n_windows == seq@.len() - l + 1,
                seq@.len() <= usize::MAX,
                n_windows == self.window_count(seq@.len() as int),
                i <= n_windows,
                seeds_view(res@) == self.seeds_upto(acc, seq@, i as nat),
            decreases n_windows - i,
        {
            let ghost f = self.smer_scores(seq@, i as int);
            let mut s_min: u64 = u64::MAX;
            let mut s_idx: usize = 0;
            let mut j: usize = 0;
            while j <= l - s
                invariant
                    self.wf(),
                    l == self.l,
                    s == self.s,
                    i + l <= seq@.len(),
                    seq@.len() <= usize::MAX,
                    f == self.smer_scores(seq@, i as int),
                    j <= l - s + 1,
                    j == 0 ==> s_min == u64::MAX,
                    j >= 1 ==> s_idx == last_argmin(f, j as nat) && s_min == f(s_idx as int),
                decreases l - s + 1 - j,
            {
                let s_hash = hash_slice(0, &seq[i + j..i + j + s]);
                if s_hash <= s_min {
                    s_min = s_hash;
                    s_idx = j;
                }
                j += 1;
            }
            proof {
                lemma_last_argmin(f, (l - s + 1) as nat);
            }
            let k_idx = s_idx % w;
            let kmer = slice_to_vec(&seq[i + k_idx..i + k_idx + k]);
            let pos = i + k_idx;
            assert((kmer@, pos) == self.selection(seq@, i as int));
            let ghost prev = res@;
            let n = res.len();
            let mut fresh = true;
            if n > 0 {
                let last = &res[n - 1];
                if last.1 == pos && last.0 == kmer {
                    fresh = false;
                }
                proof {
                    if !fresh {
                        assert(last.0@ =~= kmer@);
                    } else if last.1 == pos {
                        assert(last.0@ != kmer@) by {
                            if last.0@ == kmer@ {
                                assert(last.0.len() == kmer.len());
                            }
                        }
                    }
                    assert(seeds_view(prev).last() == (last.0@, last.1));
                }
            }
            if fresh {
                res.push((kmer, pos));
                assert(seeds_view(res@) =~= seeds_view(prev).push((kmer@, pos)));
            }
            i += 1;
        }
    }
}

/// From one window to the next, a mod-minimizer's selected position never
/// moves back; where it stays, the selection is the same.
pub proof fn lemma_mod_forward(mm: ModMinimizer, seq: Seq<u8>, i: int)
    requires
        mm.wf(),
        mm.aligned(),
        0 <= i,
        i + 1 + mm.l <= seq.len(),
    ensures
        i + mm.kmer_offset(seq, i) <= i + 1 + mm.kmer_offset(seq, i + 1),
        i + mm.kmer_offset(seq, i) == i + 1 + mm.kmer_offset(seq, i + 1) ==> mm.selection(seq, i)
            == mm.selection(seq, i + 1),
{
    let n = mm.l - mm.s + 1;
    let w = mm.w as int;
    let f = mm.smer_scores(seq, i);
    let f2 = mm.smer_scores(seq, i + 1);
    lemma_last_argmin(f, n as nat);
    lemma_last_argmin(f2, n as nat);
    let x = last_argmin(f, n as nat);
    let x2 = last_argmin(f2, n as nat);
    assert(mm.kmer_offset(seq, i) == x % w);
    assert(mm.kmer_offset(seq, i + 1) == x2 % w);
    assert forall|j: int| 0 <= j < n - 1 implies #[trigger] f2(j) == f(j + 1) by {
        assert(i + 1 + j == i + (j + 1));
    }
    if x >= 1 {
        if f2(n - 1) <= f(x) {
            assert forall|t: int| 0 <= t < n implies #[trigger] f2(t) >= f2(n - 1) by {
                if t < n - 1 {
                    assert(f2(t) == f(t + 1));
                }
            }
            assert(is_last_min(f2, n, n - 1));
            lemma_last_min_unique(f2, n, x2, n - 1);
            lemma_mod_step_back(n, w);
            assert(x2 % w == w - 1);
        } else {
            assert forall|t: int| 0 <= t < n implies #[trigger] f2(t) >= f2(x - 1) by {
                if t < n - 1 {
                    assert(f2(t) == f(t + 1));
                }
            }
            assert forall|t: int| x - 1 < t < n implies #[trigger] f2(t) > f2(x - 1) by {
                if t < n - 1 {
                    assert(f2(t) == f(t + 1));
                }
            }
            assert(is_last_min(f2, n, x - 1));
            lemma_last_min_unique(f2, n, x2, x - 1);
            lemma_mod_step_back(x, w);
        }
    } else {
        vstd::arithmetic::div_mod::lemma_small_mod(0, w as nat);
        assert(x % w == 0);
    }
}

/// A mod-minimizer's seeds, scanned into an empty list, have strictly
/// increasing positions; there are at most as many as windows, and the last
/// is the last window's selection.
pub proof fn lemma_mod_seeds_increasing(mm: ModMinimizer, seq: Seq<u8>, p: nat)
    requires
        mm.wf(),
        mm.aligned(),
        p <= mm.window_count(seq.len() as int),
        seq.len() <= usize::MAX,
    ensures
        mm.seeds_upto(seq![], seq, p).len() <= p,
        p >= 1 ==> mm.seeds_upto(seq![], seq, p).len() >= 1 && mm.seeds_upto(seq![], seq, p).last()
            == mm.selection(seq, p - 1),
        forall|a: int, b: int|
            0 <= a < b < mm.seeds_upto(seq![], seq, p).len() ==> #[trigger] mm.seeds_upto(
                seq![],
                seq,
                p,
            )[a].1 < #[trigger] mm.seeds_upto(seq![], seq, p)[b].1,
    decreases p,
{
    if p >= 1 {
        lemma_mod_seeds_increasing(mm, seq, (p - 1) as nat);
        let prev = mm.seeds_upto(seq![], seq, (p - 1) as nat);
        let e = mm.selection(seq, p - 1);
        let i = p - 1;
        assert(0 <= mm.kmer_offset(seq, i) < mm.w);
        if p >= 2 {
            lemma_mod_forward(mm, seq, p - 2);
            assert(0 <= mm.kmer_offset(seq, i - 1) < mm.w);
            let last = prev.last();
            assert(last == mm.selection(seq, i - 1));
            if last != e {
                assert(last.1 < e.1);
                assert forall|a: int| 0 <= a < prev.len() implies #[trigger] prev[a].1 < e.1 by {
                    if a < prev.len() - 1 {
                        assert(prev[a].1 < prev[prev.len() - 1].1);
                    }
                }
            }
        }
    }
}

/// A mod-minimizer's seed list has strictly increasing positions, and no more
/// seeds than k-mer positions (density at most 1).
pub proof fn lemma_mod_seeds_ordered(mm: ModMinimizer, seq: Seq<u8>)
    requires
        mm.wf(),
        mm.aligned(),
        seq.len() <= usize::MAX,
    ensures
        mm.seeds(seq![], seq).len() <= kmer_positions(seq.len() as int, mm.k as int),
        forall|a: int, b: int|
            0 <= a < b < mm.seeds(seq![], seq).len() ==> #[trigger] mm.seeds(seq![], seq)[a].1
                < #[trigger] mm.seeds(seq![], seq)[b].1,
{
    lemma_mod_seeds_increasing(mm, seq, mm.window_count(seq.len() as int));
}

/// A sequence shorter than a mod-minimizer's window has no seeds.
pub proof fn lemma_mod_short_sequence(mm: ModMinimizer, seq: Seq<u8>)
    requires
        seq.len() < mm.l,
    ensures
        mm.seeds(seq![], seq).len() == 0,
{
}

/// The least s-mer length of a subsampled minimizer.
pub const MIN_S_SUB: usize = 3;

/// The rank of a k-mer whose least-scoring s-mer sits in neither the middle nor at an end.
pub const UNRANKED: u64 = 2;

/// A subsampled (open/closed) minimizer: each window of `l` bases selects,
/// among its `w` k-mers, the one of least (rank, hash); the rank is 0 where
/// the k-mer's least-scoring s-mer sits in its middle, 1 where it sits at an
/// end, and `UNRANKED` otherwise.
pub struct SubsampledMinimizer {
    pub l: usize,
    pub k: usize,
    pub w: usize,
    pub s: usize,
}

impl SubsampledMinimizer {
    /// The fields fit together: `l = k + w - 1`, `1 <= s <= k`.
    pub open spec fn wf(&self) -> bool {
        &&& self.w >= 1
        &&& 1 <= self.s <= self.k
        &&& self.l == self.k + self.w - 1
    }

    /// The number of windows in a sequence of length `n`.
    pub open spec fn window_count(&self, n: int) -> nat {
        if n >= self.l {
            (n - self.l + 1) as nat
        } else {
            0
        }
    }

    /// The score of the s-mer at offset `t` of the k-mer at `a`.
    pub open spec fn smer_scores(&self, seq: Seq<u8>, a: int) -> spec_fn(int) -> u64 {
        |t: int| bytes_hash(0, seq.subrange(a + t, a + t + self.s))
    }

    /// The offset of the least-scoring s-mer of the k-mer at `a` (the last on ties).
    pub open spec fn inner_offset(&self, seq: Seq<u8>, a: int) -> int {
        last_argmin(self.smer_scores(seq, a), (self.k - self.s + 1) as nat)
    }

    /// The rank of the k-mer at `a`.
    pub open spec fn rank(&self, seq: Seq<u8>, a: int) -> int {
        let x = self.inner_offset(seq, a);
        if x == 0 || x == self.k - self.s {
            1
        } else if x == (self.k - self.s + 1) / 2 {
            0
        } else {
            UNRANKED as int
        }
    }

    /// The (rank, hash) pair of the k-mer at `a`, as one number ordered the same way.
    pub open spec fn kmer_key(&self, seq: Seq<u8>, a: int) -> int {
        self.rank(seq, a) * 0x1_0000_0000_0000_0000 + bytes_hash(0, seq.subrange(a, a + self.k))
    }

    /// The keys of the `w` k-mers of the window at `i`.
    pub open spec fn keys(&self, seq: Seq<u8>, i: int) -> spec_fn(int) -> int {
        |j: int| self.kmer_key(seq, i + j)
    }

    /// The offset, within the window at `i`, of the selected k-mer (the first on ties).
    pub open spec fn kmer_offset(&self, seq: Seq<u8>, i: int) -> int {
        first_argmin(self.keys(seq, i), self.w as nat)
    }

    /// The selection of the window at `i`: the k-mer's bytes and its position.
    pub open spec fn selection(&self, seq: Seq<u8>, i: int) -> (Seq<u8>, usize) {
        let p = i + self.kmer_offset(seq, i);
        (seq.subrange(p, p + self.k), p as usize)
    }

    /// `acc` followed by the selections of the first `p` windows, repeats kept once.
    pub open spec fn seeds_upto(&self, acc: Seq<(Seq<u8>, usize)>, seq: Seq<u8>, p: nat) -> Seq<
        (Seq<u8>, usize),
    >
        decreases p,
    {
        if p == 0 {
            acc
        } else {
            push_new(self.seeds_upto(acc, seq, (p - 1) as nat), self.selection(seq, p - 1))
        }
    }

    /// `acc` followed by the seeds of `seq`.
    pub open spec fn seeds(&self, acc: Seq<(Seq<u8>, usize)>, seq: Seq<u8>) -> Seq<(Seq<u8>, usize)> {
        self.seeds_upto(acc, seq, self.window_count(seq.len() as int))
    }

    /// `l = k + w - 1` and `s = max(k + 1 - w, MIN_S_SUB)`.
    pub fn new(k: usize, w: usize) -> (r: Self)
        requires
            w >= 1,
            k >= MIN_S_SUB,
            k + w <= usize::MAX,
        ensures
            r.k == k,
            r.w == w,
            r.l == k + w - 1,
            r.s == (if k + 1 - w >= MIN_S_SUB { k + 1 - w } else { MIN_S_SUB as int }),
            r.wf(),
    {
        let l = k + w - 1;
        let s = (k + 1).saturating_sub(w).max(MIN_S_SUB);
        SubsampledMinimizer { l, k, w, s }
    }

    /// The offset of the least-scoring s-mer of the k-mer at `a`.
    fn inner_min(&self, seq: &[u8], a: usize) -> (r: usize)
        requires
            self.wf(),
            a + self.k <= seq@.len(),
        ensures
            r == self.inner_offset(seq@, a as int),
            r <= self.k - self.s,
    {
        let k = self.k;
        let s = self.s;
        let ghost f = self.smer_scores(seq@, a as int);
        assert(seq@.len() == seq.len());
        let mut s_min: u64 = u64::MAX;
        let mut s_idx: usize = 0;
        let mut t: usize = 0;
        while t <= k - s
            invariant
                self.wf(),
                k == self.k,
                s == self.s,
                a + k <= seq@.len(),
                seq@.len() <= usize::MAX,
                f == self.smer_scores(seq@, a as int),
                t <= k - s + 1,
                t == 0 ==> s_min == u64::MAX,
                t >= 1 ==> s_idx == last_argmin(f, t as nat) && s_min == f(s_idx as int),
            decreases k - s + 1 - t,
        {
            let s_hash = hash_slice(0, &seq[a + t..a + t + s]);
            if s_hash <= s_min {
                s_min = s_hash;
                s_idx = t;
            }
            t += 1;
        }
        proof {
            lemma_last_argmin(f, (k - s + 1) as nat);
        }
        s_idx
    }

    /// Appends to `res` the seeds of `seq`, as (k-mer bytes, position): one
    /// selection per window of `l` bases, left to right, each dropped where it
    /// repeats the entry before it. A sequence shorter than `l` has none.
    pub fn get_seeds(&self, seq: &[u8], res: &mut Vec<(Vec<u8>, usize)>)
        requires
            self.wf(),
        ensures
            seeds_view(final(res)@) == self.seeds(seeds_view(old(res)@), seq@),
    {
        let l = self.l;
        let k = self.k;
        let w = self.w;
        let s = self.s;
        if seq.len() < l {
            return;
        }
        let n_windows = seq.len() - l + 1;
        let ghost acc = seeds_view(old(res)@);
        let mut i: usize = 0;
        while i < n_windows
            invariant
                self.wf(),
                l == self.l,
                k == self.k,
                w == self.w,
                s == self.s,
                n_windows == seq@.len() - l + 1,
                seq@.len() <= usize::MAX,
                n_windows == self.window_count(seq@.len() as int),
                i <= n_windows,
                seeds_view(res@) == self.seeds_upto(acc, seq@, i as nat),
            decreases n_windows - i,
        {
            let ghost g = self.keys(seq@, i as int);
            let mut best_rank: u64 = 10;
            let mut best_hash: u64 = u64::MAX;
            let mut k_idx: usize = 0;
            let mut j: usize = 0;
            while j < w
                invariant
                    self.wf(),
                    l == self.l,
                    k == self.k,
                    w == self.w,
                    s == self.s,
                    i + l <= seq@.len(),
                    seq@.len() <= usize::MAX,
                    g == self.keys(seq@, i as int),
                    j <= w,
                    j == 0 ==> best_rank == 10,
                    j >= 1 ==> k_idx == first_argmin(g, j as nat) && best_rank <= UNRANKED
                        && best_rank * 0x1_0000_0000_0000_0000 + best_hash == g(k_idx as int),
                decreases w - j,
            {
                let a = i + j;
                let x = self.inner_min(seq, a);
                let k_hash = hash_slice(0, &seq[a..a + k]);
                let rank: u64 = if x == 0 || x == k - s {
                    1
                } else if x == (k - s + 1) / 2 {
                    0
                } else {
                    UNRANKED
                };
                assert(rank * 0x1_0000_0000_0000_0000 + k_hash == g(j as int));
                if rank < best_rank || (rank == best_rank && k_hash < best_hash) {
                    best_rank = rank;
                    best_hash = k_hash;
                    k_idx = j;
                }
                j += 1;
            }
            proof {
                lemma_first_argmin(g, w as nat);
            }
            let kmer = slice_to_vec(&seq[i + k_idx..i + k_idx + k]);
            let pos = i + k_idx;
            assert((kmer@, pos) == self.selection(seq@, i as int));
            let ghost prev = res@;
            let n = res.len();
            let mut fresh = true;
            if n > 0 {
                let last = &res[n - 1];
                if last.1 == pos && last.0 == kmer {
                    fresh = false;
                }
                proof {
                    if !fresh {
                        assert(last.0@ =~= kmer@);
                    } else if last.1 == pos {
                        assert(last.0@ != kmer@) by {
                            if last.0@ == kmer@ {
                                assert(last.0.len() == kmer.len());
                            }
                        }
                    }
                    assert(seeds_view(prev).last() == (last.0@, last.1));
                }
            }
            if fresh {
                res.push((kmer, pos));
                assert(seeds_view(res@) =~= seeds_view(prev).push((kmer@, pos)));
            }
            i += 1;
        }
    }
}

/// From one window to the next, a subsampled minimizer's selected position
/// never moves back; where it stays, the selection is the same.
pub proof fn lemma_subsampled_forward(sm: SubsampledMinimizer, seq: Seq<u8>, i: int)
    requires
        sm.wf(),
        0 <= i,
        i + 1 + sm.l <= seq.len(),
    ensures
        i + sm.kmer_offset(seq, i) <= i + 1 + sm.kmer_offset(seq, i + 1),
        i + sm.kmer_offset(seq, i) == i + 1 + sm.kmer_offset(seq, i + 1) ==> sm.selection(seq, i)
            == sm.selection(seq, i + 1),
{
    let w = sm.w as int;
    let g = sm.keys(seq, i);
    let g2 = sm.keys(seq, i + 1);
    lemma_first_argmin(g, w as nat);
    lemma_first_argmin(g2, w as nat);
    let y = first_argmin(g, w as nat);
    let y2 = first_argmin(g2, w as nat);
    assert forall|j: int| 0 <= j < w - 1 implies #[trigger] g2(j) == g(j + 1) by {
        assert(i + 1 + j == i + (j + 1));
    }
    if y >= 1 {
        if g2(w - 1) < g(y) {
            assert forall|t: int| 0 <= t < w implies #[trigger] g2(t) >= g2(w - 1) by {
                if t < w - 1 {
                    assert(g2(t) == g(t + 1));
                }
            }
            assert forall|t: int| 0 <= t < w - 1 implies #[trigger] g2(t) > g2(w - 1) by {
                assert(g2(t) == g(t + 1));
            }
            assert(is_first_min(g2, w, w - 1));
            lemma_first_min_unique(g2, w, y2, w - 1);
        } else {
            assert forall|t: int| 0 <= t < w implies #[trigger] g2(t) >= g2(y - 1) by {
                if t < w - 1 {
                    assert(g2(t) == g(t + 1));
                }
            }
            assert forall|t: int| 0 <= t < y - 1 implies #[trigger] g2(t) > g2(y - 1) by {
                assert(g2(t) == g(t + 1));
            }
            assert(is_first_min(g2, w, y - 1));
            lemma_first_min_unique(g2, w, y2, y - 1);
        }
    }
}

/// A subsampled minimizer's seeds, scanned into an empty list, have strictly
/// increasing positions; there are at most as many as windows, and the last
/// is the last window's selection.
pub proof fn lemma_subsampled_seeds_increasing(sm: SubsampledMinimizer, seq: Seq<u8>, p: nat)
    requires
        sm.wf(),
        p <= sm.window_count(seq.len() as int),
        seq.len() <= usize::MAX,
    ensures
        sm.seeds_upto(seq![], seq, p).len() <= p,
        p >= 1 ==> sm.seeds_upto(seq![], seq, p).len() >= 1 && sm.seeds_upto(seq![], seq, p).last()
            == sm.selection(seq, p - 1),
        forall|a: int, b: int|
            0 <= a < b < sm.seeds_upto(seq![], seq, p).len() ==> #[trigger] sm.seeds_upto(
                seq![],
                seq,
                p,
            )[a].1 < #[trigger] sm.seeds_upto(seq![], seq, p)[b].1,
    decreases p,
{
    if p >= 1 {
        lemma_subsampled_seeds_increasing(sm, seq, (p - 1) as nat);
        let prev = sm.seeds_upto(seq![], seq, (p - 1) as nat);
        let e = sm.selection(seq, p - 1);
        let i = p - 1;
        lemma_first_argmin(sm.keys(seq, i), sm.w as nat);
        if p >= 2 {
            lemma_subsampled_forward(sm, seq, p - 2);
            lemma_first_argmin(sm.keys(seq, i - 1), sm.w as nat);
            let last = prev.last();
            assert(last == sm.selection(seq, i - 1));
            if last != e {
                assert(last.1 < e.1);
                assert forall|a: int| 0 <= a < prev.len() implies #[trigger] prev[a].1 < e.1 by {
                    if a < prev.len() - 1 {
                        assert(prev[a].1 < prev[prev.len() - 1].1);
                    }
                }
            }
        }
    }
}

/// A subsampled minimizer's seed list has strictly increasing positions, and
/// no more seeds than k-mer positions (density at most 1).
pub proof fn lemma_subsampled_seeds_ordered(sm: SubsampledMinimizer, seq: Seq<u8>)
    requires
        sm.wf(),
        seq.len() <= usize::MAX,
    ensures
        sm.seeds(seq![], seq).len() <= kmer_positions(seq.len() as int, sm.k as int),
        forall|a: int, b: int|
            0 <= a < b < sm.seeds(seq![], seq).len() ==> #[trigger] sm.seeds(seq![], seq)[a].1
                < #[trigger] sm.seeds(seq![], seq)[b].1,
{
    lemma_subsampled_seeds_increasing(sm, seq, sm.window_count(seq.len() as int));
}

/// A sequence shorter than a subsampled minimizer's window has no seeds.
pub proof fn lemma_subsampled_short_sequence(sm: SubsampledMinimizer, seq: Seq<u8>)
    requires
        seq.len() < sm.l,
    ensures
        sm.seeds(seq![], seq).len() == 0,
{
}

} // verus!
