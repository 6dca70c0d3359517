//! The two-level minimizer: a k-mer is a seed when its least-scoring m1-mer,
//! scored by its own least m2-mer hash and then by its own hash, sits at
//! offset `(k - m2 + 1) / 2`.
use crate::packing::{
    byte_to_bits, lemma_pack_bound, lemma_pack_drop_first, lemma_pack_push, lemma_pack_sub,
    lemma_pow4_63, lemma_pow4_monotonic, lemma_pow4_positive, pack, pow4, pow4_table,
};
use crate::scoring::{first_argmin, hash, kmer_hash, last_argmin, lemma_last_argmin};
use vstd::prelude::*;

verus! {

/// Why a two-level configuration is refused.
#[derive(Debug, PartialEq, Eq, Structural)]
pub enum ConfigError {
    /// `k` does not fit the packed scan (`k >= 64`).
    KTooLarge,
    /// One of `k`, `m1`, `m2` is even.
    EvenLength,
    /// The lengths are not ordered `m2 <= m1 <= k`.
    Misordered,
}

/// A two-level minimizer configuration.
pub struct TwoLevelMinimizer {
    pub k: usize,
    pub m1: usize,
    pub m2: usize,
}

impl TwoLevelMinimizer {
    /// The lengths are odd, ordered `m2 <= m1 <= k`, and `k < 64`.
    pub open spec fn wf(&self) -> bool {
        &&& self.k < 64
        &&& self.k % 2 == 1
        &&& self.m1 % 2 == 1
        &&& self.m2 % 2 == 1
        &&& self.m2 <= self.m1 <= self.k
    }

    /// The number of k-mers in a sequence of length `n`.
    pub open spec fn window_count(&self, n: int) -> nat {
        if n >= self.k {
            (n - self.k + 1) as nat
        } else {
            0
        }
    }

    /// The hash (seed 0) of the m2-mer at `a`.
    pub open spec fn m2_scores(&self, seq: Seq<u8>, a: int) -> spec_fn(int) -> u64 {
        |u: int| kmer_hash(0, pack(seq.subrange(a + u, a + u + self.m2)) as u128)
    }

    /// The score of the m1-mer at `a`: its least m2-mer hash, then its own
    /// hash (seed 1), as one number ordered the same way.
    pub open spec fn m1_key(&self, seq: Seq<u8>, a: int) -> int {
        let f = self.m2_scores(seq, a);
        let least = f(last_argmin(f, (self.m1 - self.m2 + 1) as nat));
        least * 0x1_0000_0000_0000_0000 + kmer_hash(1, pack(seq.subrange(a, a + self.m1)) as u128)
    }

    /// The scores of the m1-mers of the k-mer at `i`, by offset.
    pub open spec fn m1_keys(&self, seq: Seq<u8>, i: int) -> spec_fn(int) -> int {
        |j: int| self.m1_key(seq, i + j)
    }

    /// The offset of the least-scoring m1-mer of the k-mer at `i` (the first on ties).
    pub open spec fn min_offset(&self, seq: Seq<u8>, i: int) -> int {
        first_argmin(self.m1_keys(seq, i), (self.k - self.m1 + 1) as nat)
    }

    /// The k-mer at `i` is a seed.
    pub open spec fn accepts(&self, seq: Seq<u8>, i: int) -> bool {
        self.min_offset(seq, i) == (self.k - self.m2 + 1) / 2
    }

    /// The seeds among the first `p` k-mers, in order.
    pub open spec fn seeds_upto(&self, seq: Seq<u8>, p: nat) -> Seq<(u128, usize)>
        decreases p,
    {
        if p == 0 {
            seq![]
        } else {
            let prev = self.seeds_upto(seq, (p - 1) as nat);
            let i = p - 1;
            if self.accepts(seq, i) {
                prev.push((pack(seq.subrange(i, i + self.k)) as u128, i as usize))
            } else {
                prev
            }
        }
    }

    /// The seeds of a whole sequence, in order of position.
    pub open spec fn seeds(&self, seq: Seq<u8>) -> Seq<(u128, usize)> {
        self.seeds_upto(seq, self.window_count(seq.len() as int))
    }

    /// Validates and builds a configuration.
    pub fn new(k: usize, m1: usize, m2: usize) -> (r: Result<Self, ConfigError>)
        ensures
            k >= 64 ==> r == Err::<Self, ConfigError>(ConfigError::KTooLarge),
            k < 64 && (k % 2 == 0 || m1 % 2 == 0 || m2 % 2 == 0) ==> r == Err::<Self, ConfigError>(
                ConfigError::EvenLength,
            ),
            k < 64 && k % 2 == 1 && m1 % 2 == 1 && m2 % 2 == 1 && !(m2 <= m1 <= k) ==> r == Err::<
                Self,
                ConfigError,
            >(ConfigError::Misordered),
            r is Ok ==> r->Ok_0.wf() && r->Ok_0.k == k && r->Ok_0.m1 == m1 && r->Ok_0.m2 == m2,
            (k < 64 && k % 2 == 1 && m1 % 2 == 1 && m2 % 2 == 1 && m2 <= m1 <= k) <==> r is Ok,
    {
        if k >= 64 {
            return Err(ConfigError::KTooLarge);
        }
        if k % 2 == 0 || m1 % 2 == 0 || m2 % 2 == 0 {
            return Err(ConfigError::EvenLength);
        }
        if m2 > m1 || m1 > k {
            return Err(ConfigError::Misordered);
        }
        Ok(TwoLevelMinimizer { k, m1, m2 })
    }

    /// The score of the m1-mer at offset `j` of a packed k-mer.
    fn m1_score(&self, kmer: u128, pows: &Vec<u128>, j: usize, ghost_win: Ghost<Seq<u8>>, ghost_seq: Ghost<Seq<u8>>, ghost_i: Ghost<int>) -> (r: (u64, u64))
        requires
            self.wf(),
            ghost_win@ == ghost_seq@.subrange(ghost_i@, ghost_i@ + self.k),
            0 <= ghost_i@,
            ghost_i@ + self.k <= ghost_seq@.len(),
            kmer as nat == pack(ghost_win@),
            pows@.len() == self.k + 1,
            forall|e: int| 0 <= e <= self.k ==> pows@[e] as nat == pow4(e as nat),
            j <= self.k - self.m1,
        ensures
            r.0 * 0x1_0000_0000_0000_0000 + r.1 == self.m1_key(ghost_seq@, ghost_i@ + j),
    {
        let k = self.k;
        let m1 = self.m1;
        let m2 = self.m2;
        let ghost seq = ghost_seq@;
        let ghost i = ghost_i@;
        let ghost win = ghost_win@;
        proof {
            lemma_pack_sub(win, j as int, m1 as nat);
            assert(win.subrange(j as int, j + m1) =~= seq.subrange(i + j, i + j + m1));
            lemma_pow4_positive((k - m1 - j) as nat);
            lemma_pow4_positive(m1 as nat);
        }
        let m1mer: u128 = (kmer / pows[k - m1 - j]) % pows[m1];
        let ghost sub = seq.subrange(i + j, i + j + m1);
        let ghost f = self.m2_scores(seq, i + j);
        let mut least: u64 = u64::MAX;
        let mut at: usize = 0;
        let mut u: usize = 0;
        while u <= m1 - m2
            invariant
                self.wf(),
                k == self.k,
                m1 == self.m1,
                m2 == self.m2,
                j <= k - m1,
                0 <= i,
                i + k <= seq.len(),
                sub == seq.subrange(i + j, i + j + m1),
                m1mer as nat == pack(sub),
                f == self.m2_scores(seq, i + j),
                pows@.len() == k + 1,
                forall|e: int| 0 <= e <= k ==> pows@[e] as nat == pow4(e as nat),
                u <= m1 - m2 + 1,
                u == 0 ==> least == u64::MAX,
                u >= 1 ==> at == last_argmin(f, u as nat) && least == f(at as int),
            decreases m1 - m2 + 1 - u,
        {
            proof {
                lemma_pack_sub(sub, u as int, m2 as nat);
                assert(sub.subrange(u as int, u + m2) =~= seq.subrange(i + j + u, i + j + u + m2));
                lemma_pow4_positive((m1 - m2 - u) as nat);
                lemma_pow4_positive(m2 as nat);
            }
            let m2mer: u128 = (m1mer / pows[m1 - m2 - u]) % pows[m2];
            let h = hash(0, m2mer);
            if h <= least {
                least = h;
                at = u;
            }
            u += 1;
        }
        (least, hash(1, m1mer))
    }

    /// Appends to `res` each seed of `seq`, as (packed k-mer, start position),
    /// in order of position. A sequence shorter than `k` has none.
    pub fn get_seeds(&self, seq: &[u8], res: &mut Vec<(u128, usize)>)
        requires
            self.wf(),
        ensures
            final(res)@ == old(res)@ + self.seeds(seq@),
    {
        let k = self.k;
        let m1 = self.m1;
        if seq.len() < k {
            assert(old(res)@ + self.seeds(seq@) =~= old(res)@);
            return;
        }
        let pows = pow4_table(k);
        let drop_mod = pows[k - 1];
        let mut prefix: u128 = 0;
        let mut p: usize = 0;
        while p < k - 1
            invariant
                1 <= k <= seq@.len(),
                k < 64,
                p <= k - 1,
                prefix as nat == pack(seq@.subrange(0, p as int)),
            decreases k - 1 - p,
        {
            let c = byte_to_bits(seq[p]);
            proof {
                assert(seq@.subrange(0, p + 1) =~= seq@.subrange(0, p as int).push(seq@[p as int]));
                lemma_pack_push(seq@.subrange(0, p as int), seq@[p as int]);
                lemma_pack_bound(seq@.subrange(0, p as int));
                lemma_pow4_monotonic(p as nat, 62);
                lemma_pow4_63();
            }
            prefix = prefix * 4 + c as u128;
            p += 1;
        }
        let n_windows = seq.len() - k + 1;
        let mid = (k - self.m2 + 1) / 2;
        let ghost old_res = old(res)@;
        let mut i: usize = 0;
        while i < n_windows
            invariant
                self.wf(),
                k == self.k,
                m1 == self.m1,
                mid == (self.k - self.m2 + 1) / 2,
                n_windows == seq@.len() - k + 1,
                seq@.len() <= usize::MAX,
                n_windows == self.window_count(seq@.len() as int),
                i <= n_windows,
                pows@.len() == k + 1,
                forall|e: int| 0 <= e <= k ==> pows@[e] as nat == pow4(e as nat),
                drop_mod as nat == pow4((k - 1) as nat),
                prefix as nat == pack(seq@.subrange(i as int, i + k - 1)),
                res@ == old_res + self.seeds_upto(seq@, i as nat),
            decreases n_windows - i,
        {
            let ghost win = seq@.subrange(i as int, i + k);
            let c = byte_to_bits(seq[i + (k - 1)]);
            proof {
                let pre = seq@.subrange(i as int, i + k - 1);
                assert(win =~= pre.push(seq@[i + k - 1]));
                lemma_pack_push(pre, seq@[i + k - 1]);
                lemma_pack_bound(pre);
                lemma_pack_bound(win);
                lemma_pow4_monotonic(k as nat, 63);
                lemma_pow4_63();
            }
            let kmer: u128 = prefix * 4 + c as u128;
            let ghost g = self.m1_keys(seq@, i as int);
            let mut best_least: u64 = u64::MAX;
            let mut best_own: u64 = u64::MAX;
            let mut best_j: usize = 0;
            let mut j: usize = 0;
            while j <= k - m1
                invariant
                    self.wf(),
                    k == self.k,
                    m1 == self.m1,
                    i + k <= seq@.len(),
                    win == seq@.subrange(i as int, i + k),
                    kmer as nat == pack(win),
                    g == self.m1_keys(seq@, i as int),
                    pows@.len() == k + 1,
                    forall|e: int| 0 <= e <= k ==> pows@[e] as nat == pow4(e as nat),
                    j <= k - m1 + 1,
                    j >= 1 ==> best_j == first_argmin(g, j as nat) && best_least
                        * 0x1_0000_0000_0000_0000 + best_own == g(best_j as int),
                decreases k - m1 + 1 - j,
            {
                let score = self.m1_score(kmer, &pows, j, Ghost(win), Ghost(seq@), Ghost(i as int));
                if j == 0 || score.0 < best_least || (score.0 == best_least && score.1 < best_own) {
                    best_least = score.0;
                    best_own = score.1;
                    best_j = j;
                }
                j += 1;
            }
            if best_j == mid {
                res.push((kmer, i));
            }
            assert(res@ == old_res + self.seeds_upto(seq@, (i + 1) as nat));
            proof {
                lemma_pack_drop_first(win);
                assert(win.subrange(1, k as int) =~= seq@.subrange(i + 1, i + 1 + k - 1));
            }
            prefix = kmer % drop_mod;
            i += 1;
        }
    }
}

/// Two-level seeds come in strictly increasing order of position, each at an
/// accepted k-mer; there are at most `p` among the first `p` k-mers.
pub proof fn lemma_two_level_seeds_ordered(tl: TwoLevelMinimizer, seq: Seq<u8>, p: nat)
    requires
        p <= usize::MAX + 1,
    ensures
        tl.seeds_upto(seq, p).len() <= p,
        forall|a: int, b: int|
            0 <= a < b < tl.seeds_upto(seq, p).len() ==> #[trigger] tl.seeds_upto(seq, p)[a].1
                < #[trigger] tl.seeds_upto(seq, p)[b].1,
        forall|a: int|
            0 <= a < tl.seeds_upto(seq, p).len() ==> (#[trigger] tl.seeds_upto(seq, p)[a]).1 < p
                && tl.accepts(seq, tl.seeds_upto(seq, p)[a].1 as int),
    decreases p,
{
    if p > 0 {
        lemma_two_level_seeds_ordered(tl, seq, (p - 1) as nat);
    }
}

/// A two-level scan yields strictly increasing positions, no more seeds than
/// k-mers, and none for a sequence shorter than `k`.
pub proof fn lemma_two_level_seed_positions_increase(tl: TwoLevelMinimizer, seq: Seq<u8>)
    requires
        seq.len() <= usize::MAX,
    ensures
        tl.seeds(seq).len() <= tl.window_count(seq.len() as int),
        seq.len() < tl.k ==> tl.seeds(seq).len() == 0,
        forall|a: int, b: int|
            0 <= a < b < tl.seeds(seq).len() ==> #[trigger] tl.seeds(seq)[a].1
                < #[trigger] tl.seeds(seq)[b].1,
{
    lemma_two_level_seeds_ordered(tl, seq, tl.window_count(seq.len() as int));
}

} // verus!
