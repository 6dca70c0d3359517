//! Measures of a seed list: density, and how many positions the seeds that
//! two lists share keep anchored.
use rustc_hash::{FxHashMap, FxHashSet};
use vstd::prelude::*;
use vstd::relations::{sorted_by, total_ordering};
use vstd::seq_lib::{group_to_multiset_ensures, lemma_sorted_unique};

verus! {

/// std's `BuildHasherDefault`, the hasher builder of rustc-hash's sets: carried, not inspected.
#[verifier::external_type_specification]
#[verifier::external_body]
#[verifier::reject_recursive_types(H)]
pub struct ExBuildHasherDefault<H>(std::hash::BuildHasherDefault<H>);

/// rustc-hash's `FxHasher`: carried, not inspected.
#[verifier::external_type_specification]
#[verifier::external_body]
pub struct ExFxHasher(rustc_hash::FxHasher);

/// Relies on `HashSet::insert` of std, under rustc-hash's `FxHasher`
/// (`FxHashSet`): the set gains `key`. Seeds compare by value, so the stored
/// element is `key` itself.
#[verifier::external_body]
fn fx_insert_seed(set: &mut FxHashSet<(u128, usize)>, key: (u128, usize))
    ensures
        final(set)@ == old(set)@.insert(key),
{
    set.insert(key);
}

/// Relies on `HashSet::insert` of std, under rustc-hash's `FxHasher`
/// (`FxHashSet`): the set gains the position `key`.
#[verifier::external_body]
fn fx_insert_position(set: &mut FxHashSet<usize>, key: usize)
    ensures
        final(set)@ == old(set)@.insert(key),
{
    set.insert(key);
}

/// Relies on `HashSet::contains` of std, under rustc-hash's `FxHasher`
/// (`FxHashSet`): whether the seed `key` is in the set (seeds compare by value).
#[verifier::external_body]
fn fx_contains_seed(set: &FxHashSet<(u128, usize)>, key: &(u128, usize)) -> (r: bool)
    ensures
        r == set@.contains(*key),
{
    set.contains(key)
}

/// Relies on `HashSet::len` of std, under rustc-hash's `FxHasher`
/// (`FxHashSet`): the number of keys in the set.
#[verifier::external_body]
fn fx_len(set: &FxHashSet<usize>) -> (r: usize)
    ensures
        r == set@.len(),
{
    set.len()
}

/// Relies on `HashMap::get` of std, under rustc-hash's `FxHasher`
/// (`FxHashMap`): the count under the gap `key`, if any.
#[verifier::external_body]
fn fx_get_count(map: &FxHashMap<usize, usize>, key: &usize) -> (r: Option<usize>)
    ensures
        r == (if map@.contains_key(*key) {
            Some(map@[*key])
        } else {
            None
        }),
{
    map.get(key).copied()
}

/// Relies on `HashMap::insert` of std, under rustc-hash's `FxHasher`
/// (`FxHashMap`): the gap `key` now maps to `value`.
#[verifier::external_body]
fn fx_put_count(map: &mut FxHashMap<usize, usize>, key: usize, value: usize)
    ensures
        final(map)@ == old(map)@.insert(key, value),
{
    map.insert(key, value);
}

/// Relies on `HashMap::keys` of std, under rustc-hash's `FxHasher`
/// (`FxHashMap`): every key, once each, in no particular order.
#[verifier::external_body]
fn fx_keys(map: &FxHashMap<usize, usize>) -> (r: Vec<usize>)
    ensures
        r@.no_duplicates(),
        r@.to_set() == map@.dom(),
{
    map.keys().copied().collect()
}

/// The order of `usize` values.
pub open spec fn usize_leq() -> spec_fn(usize, usize) -> bool {
    |a: usize, b: usize| a <= b
}

/// Relies on `slice::sort_unstable` of std: the same values, ascending.
#[verifier::external_body]
fn sort_ascending(v: &mut Vec<usize>)
    ensures
        final(v)@.to_multiset() == old(v)@.to_multiset(),
        sorted_by(final(v)@, usize_leq()),
{
    v.sort_unstable();
}

/// The number of k-mer start positions in a sequence of length `seq_len`.
pub open spec fn kmer_positions(seq_len: int, k: int) -> int {
    if seq_len < k {
        0
    } else {
        seq_len - k + 1
    }
}

/// The density of a seed list as a fraction: the number of seeds over the
/// number of k-mer start positions, `(0, 0)` where the sequence is shorter
/// than `k` (density 0).
pub fn density_fraction<T>(seeds: &[(T, usize)], seq_len: usize, k: usize) -> (r: (usize, usize))
    requires
        k >= 1,
    ensures
        seq_len < k ==> r == (0usize, 0usize),
        seq_len >= k ==> r.0 == seeds@.len() && r.1 == kmer_positions(seq_len as int, k as int),
{
    if seq_len < k {
        return (0, 0);
    }
    (seeds.len(), seq_len - k + 1)
}

/// The positions covered by the seeds that both lists hold: for each shared
/// (k-mer, position) pair `(x, i)`, the positions `i..i + k`.
pub open spec fn covered(a: Set<(u128, usize)>, b: Set<(u128, usize)>, k: int) -> Set<usize> {
    Set::new(
        |j: usize|
            exists|e: (u128, usize)| #[trigger]
                a.contains(e) && b.contains(e) && e.1 <= j < e.1 + k,
    )
}

/// The number of positions covered by the seeds that `seeds` and `seeds_mut`
/// share; the conservation is this count over the sequence length.
pub fn conservation_count(seeds: &[(u128, usize)], seeds_mut: &[(u128, usize)], k: usize) -> (r:
    usize)
    requires
        forall|i: int| 0 <= i < seeds@.len() ==> #[trigger] seeds@[i].1 + k <= usize::MAX,
    ensures
        r == covered(seeds@.to_set(), seeds_mut@.to_set(), k as int).len(),
{
    let mut b: FxHashSet<(u128, usize)> = FxHashSet::default();
    let mut q: usize = 0;
    while q < seeds_mut.len()
        invariant
            q <= seeds_mut@.len(),
            b@ == seeds_mut@.subrange(0, q as int).to_set(),
        decreases seeds_mut@.len() - q,
    {
        proof {
            assert(seeds_mut@.subrange(0, q + 1) =~= seeds_mut@.subrange(0, q as int).push(seeds_mut@[q as int]));
            seeds_mut@.subrange(0, q as int).lemma_push_to_set_commute(seeds_mut@[q as int]);
        }
        fx_insert_seed(&mut b, seeds_mut[q]);
        q += 1;
    }
    assert(seeds_mut@.subrange(0, seeds_mut@.len() as int) =~= seeds_mut@);
    let ghost sa = seeds@.to_set();
    let ghost sb = seeds_mut@.to_set();
    let mut res: FxHashSet<usize> = FxHashSet::default();
    let mut p: usize = 0;
    while p < seeds.len()
        invariant
            p <= seeds@.len(),
            b@ == sb,
            sa == seeds@.to_set(),
            forall|i: int| 0 <= i < seeds@.len() ==> #[trigger] seeds@[i].1 + k <= usize::MAX,
            forall|j: usize| #[trigger] res@.contains(j) <==> exists|i: int|
                0 <= i < p && sb.contains(#[trigger] seeds@[i]) && seeds@[i].1 <= j < seeds@[i].1 + k,
        decreases seeds@.len() - p,
    {
        let e = seeds[p];
        if fx_contains_seed(&b, &e) {
            let end = e.1 + k;
            let mut j: usize = e.1;
            while j < end
                invariant
                    e.1 <= j <= end,
                    end == e.1 + k,
                    forall|x: usize| #[trigger] res@.contains(x) <==> (exists|i: int|
                        0 <= i < p && sb.contains(#[trigger] seeds@[i]) && seeds@[i].1 <= x < seeds@[i].1 + k)
                        || e.1 <= x < j,
                decreases end - j,
            {
                fx_insert_position(&mut res, j);
                j += 1;
            }
        }
        p += 1;
    }
    proof {
        let cov = covered(sa, sb, k as int);
        assert forall|j: usize| #[trigger] cov.contains(j) <==> res@.contains(j) by {
            if cov.contains(j) {
                let e = choose|e: (u128, usize)| #[trigger] sa.contains(e) && sb.contains(e) && e.1 <= j < e.1 + k;
                let i = choose|i: int| 0 <= i < seeds@.len() && seeds@[i] == e;
                assert(sb.contains(seeds@[i]));
            }
            if res@.contains(j) {
                let i = choose|i: int| 0 <= i < p && sb.contains(#[trigger] seeds@[i]) && seeds@[i].1 <= j < seeds@[i].1 + k;
                assert(sa.contains(seeds@[i]));
            }
        }
        assert(cov =~= res@);
    }
    fx_len(&res)
}

/// What can go wrong in a metric.
#[derive(Debug, PartialEq, Eq, Structural)]
pub enum MetricsError {
    /// The seed list is empty, so it has no first position.
    EmptySeeds,
}

/// The positions of a seed list, ascending.
pub open spec fn sorted_positions(seeds: Seq<(u128, usize)>) -> Seq<usize> {
    seeds.map_values(|e: (u128, usize)| e.1).sort_by(usize_leq())
}

/// The number of `i < m` at which the gap `q[i + 1] - q[i]` is `g`.
pub open spec fn gap_count(q: Seq<usize>, g: usize, m: nat) -> nat
    decreases m,
{
    if m == 0 {
        0
    } else {
        gap_count(q, g, (m - 1) as nat) + if q[m as int] - q[m - 1] == g {
            1nat
        } else {
            0nat
        }
    }
}

/// `h` lists, by strictly increasing gap, each gap between consecutive
/// entries of the ascending `q`, with the number of times it occurs.
pub open spec fn is_gap_histogram(h: Seq<(usize, usize)>, q: Seq<usize>) -> bool {
    let m = (q.len() - 1) as nat;
    &&& forall|i: int, j: int| 0 <= i < j < h.len() ==> #[trigger] h[i].0 < #[trigger] h[j].0
    &&& forall|i: int|
        0 <= i < h.len() ==> #[trigger] h[i].1 == gap_count(q, h[i].0, m) && h[i].1 > 0
    &&& forall|g: usize|
        #[trigger] gap_count(q, g, m) > 0 ==> exists|i: int| 0 <= i < h.len() && h[i].0 == g
}

proof fn lemma_gap_count_bound(q: Seq<usize>, g: usize, m: nat)
    ensures
        gap_count(q, g, m) <= m,
    decreases m,
{
    if m > 0 {
        lemma_gap_count_bound(q, g, (m - 1) as nat);
    }
}

proof fn lemma_usize_leq_total()
    ensures
        total_ordering(usize_leq()),
{
}

/// The histogram of gaps between consecutive seed positions (positions taken
/// in ascending order), by increasing gap; an empty seed list has no first
/// position and is refused.
pub fn distances(seeds: &[(u128, usize)]) -> (r: Result<Vec<(usize, usize)>, MetricsError>)
    ensures
        seeds@.len() == 0 <==> r == Err::<Vec<(usize, usize)>, MetricsError>(MetricsError::EmptySeeds),
        r is Ok ==> is_gap_histogram(r->Ok_0@, sorted_positions(seeds@)),
{
    broadcast use group_to_multiset_ensures;

    if seeds.len() == 0 {
        return Err(MetricsError::EmptySeeds);
    }
    let ghost all = seeds@.map_values(|e: (u128, usize)| e.1);
    let mut pos: Vec<usize> = Vec::new();
    let mut i: usize = 0;
    while i < seeds.len()
        invariant
            i <= seeds@.len(),
            all == seeds@.map_values(|e: (u128, usize)| e.1),
            pos@ == all.subrange(0, i as int),
        decreases seeds@.len() - i,
    {
        pos.push(seeds[i].1);
        i += 1;
        assert(pos@ =~= all.subrange(0, i as int));
    }
    assert(pos@ =~= all);
    sort_ascending(&mut pos);
    let ghost q = sorted_positions(seeds@);
    proof {
        lemma_usize_leq_total();
        all.lemma_sort_by_ensures(usize_leq());
        lemma_sorted_unique(pos@, q, usize_leq());
        vstd::seq_lib::to_multiset_len(pos@);
        vstd::seq_lib::to_multiset_len(all);
        assert(all.len() == seeds@.len());
    }
    let n_gaps = pos.len() - 1;
    let mut hist: FxHashMap<usize, usize> = FxHashMap::default();
    let mut j: usize = 0;
    while j < n_gaps
        invariant
            pos@ == q,
            q.len() >= 1,
            n_gaps == q.len() - 1,
            sorted_by(q, usize_leq()),
            j <= n_gaps,
            forall|g: usize|
                (#[trigger] hist@.contains_key(g) <==> gap_count(q, g, j as nat) > 0) && (
                hist@.contains_key(g) ==> hist@[g] == gap_count(q, g, j as nat)),
        decreases n_gaps - j,
    {
        assert(usize_leq()(q[j as int], q[j + 1]));
        let g = pos[j + 1] - pos[j];
        proof {
            lemma_gap_count_bound(q, g, j as nat);
        }
        let c = match fx_get_count(&hist, &g) {
            Some(c) => c,
            None => 0,
        };
        fx_put_count(&mut hist, g, c + 1);
        j += 1;
    }
    let mut keys = fx_keys(&hist);
    let ghost unsorted = keys@;
    sort_ascending(&mut keys);
    proof {
        unsorted.lemma_multiset_has_no_duplicates();
        keys@.lemma_multiset_has_no_duplicates_conv();
    }
    let mut res: Vec<(usize, usize)> = Vec::new();
    let mut t: usize = 0;
    while t < keys.len()
        invariant
            t <= keys@.len(),
            keys@.no_duplicates(),
            sorted_by(keys@, usize_leq()),
            keys@.to_multiset() == unsorted.to_multiset(),
            unsorted.to_set() == hist@.dom(),
            q.len() >= 1,
            forall|g: usize|
                (#[trigger] hist@.contains_key(g) <==> gap_count(q, g, (q.len() - 1) as nat) > 0)
                    && (hist@.contains_key(g) ==> hist@[g] == gap_count(q, g, (q.len() - 1) as nat)),
            res@.len() == t,
            forall|a: int| 0 <= a < t ==> (#[trigger] res@[a]).0 == keys@[a] && res@[a].1 == gap_count(q, keys@[a], (q.len() - 1) as nat)
                && res@[a].1 > 0,
        decreases keys@.len() - t,
    {
        let g = keys[t];
        proof {
            assert(keys@.contains(g));
            vstd::seq_lib::to_multiset_contains(keys@, g);
            vstd::seq_lib::to_multiset_contains(unsorted, g);
            assert(unsorted.contains(g));
        }
        assert(hist@.dom().contains(g));
        let c = match fx_get_count(&hist, &g) {
            Some(c) => c,
            None => 0,
        };
        res.push((g, c));
        t += 1;
    }
    proof {
        let m = (q.len() - 1) as nat;
        let h = res@;
        assert forall|a: int, b: int| 0 <= a < b < h.len() implies #[trigger] h[a].0 < #[trigger] h[b].0 by {
            assert(usize_leq()(keys@[a], keys@[b]));
            assert(keys@[a] != keys@[b]);
        }
        assert forall|g: usize| #[trigger] gap_count(q, g, m) > 0 implies exists|a: int|
            0 <= a < h.len() && h[a].0 == g by {
            assert(hist@.dom().contains(g));
            assert(unsorted.to_set().contains(g));
            assert(unsorted.contains(g));
            vstd::seq_lib::to_multiset_contains(keys@, g);
            vstd::seq_lib::to_multiset_contains(unsorted, g);
            let a = choose|a: int| 0 <= a < keys@.len() && keys@[a] == g;
            assert(h[a].0 == g);
        }
    }
    Ok(res)
}

proof fn lemma_gap_count_witness(q: Seq<usize>, g: usize, m: nat)
    requires
        gap_count(q, g, m) > 0,
    ensures
        exists|t: int| 0 <= t < m && q[t + 1] - #[trigger] q[t] == g,
    decreases m,
{
    if m > 0 && gap_count(q, g, (m - 1) as nat) > 0 {
        lemma_gap_count_witness(q, g, (m - 1) as nat);
        let t = choose|t: int| 0 <= t < m - 1 && q[t + 1] - #[trigger] q[t] == g;
        assert(0 <= t < m && q[t + 1] - q[t] == g);
    } else {
        assert(0 <= m - 1 < m && q[m as int] - q[m - 1] == g);
    }
}

/// Where seed positions strictly increase (as a scan's do), every gap in
/// their histogram is at least 1.
pub proof fn lemma_histogram_gaps_positive(seeds: Seq<(u128, usize)>, h: Seq<(usize, usize)>)
    requires
        seeds.len() >= 1,
        forall|a: int, b: int| 0 <= a < b < seeds.len() ==> #[trigger] seeds[a].1 < #[trigger] seeds[b].1,
        is_gap_histogram(h, sorted_positions(seeds)),
    ensures
        forall|i: int| 0 <= i < h.len() ==> #[trigger] h[i].0 >= 1,
{
    broadcast use group_to_multiset_ensures;

    let pos = seeds.map_values(|e: (u128, usize)| e.1);
    let q = sorted_positions(seeds);
    lemma_usize_leq_total();
    pos.lemma_sort_by_ensures(usize_leq());
    assert(sorted_by(pos, usize_leq())) by {
        assert forall|a: int, b: int| 0 <= a < b < pos.len() implies #[trigger] usize_leq()(pos[a], pos[b]) by {
            assert(seeds[a].1 < seeds[b].1);
        }
    }
    lemma_sorted_unique(pos, q, usize_leq());
    assert forall|i: int| 0 <= i < h.len() implies #[trigger] h[i].0 >= 1 by {
        let g = h[i].0;
        assert(h[i].1 == gap_count(q, g, (q.len() - 1) as nat) && h[i].1 > 0);
        lemma_gap_count_witness(q, g, (q.len() - 1) as nat);
        let t = choose|t: int| 0 <= t < q.len() - 1 && q[t + 1] - #[trigger] q[t] == g;
        assert(seeds[t].1 < seeds[t + 1].1);
    }
}

/// The order of seeds by position, then by k-mer.
pub open spec fn seed_leq() -> spec_fn((u128, usize), (u128, usize)) -> bool {
    |a: (u128, usize), b: (u128, usize)| a.1 < b.1 || (a.1 == b.1 && a.0 <= b.0)
}

/// The sort key of a seed: its position, then its k-mer.
fn by_position(e: &(u128, usize)) -> (r: (usize, u128))
    ensures
        r == (e.1, e.0),
{
    (e.1, e.0)
}

/// Relies on `slice::sort_unstable_by_key` of std, keyed by (position, k-mer):
/// the same seeds, ascending by that key.
#[verifier::external_body]
fn sort_by_position(v: &mut Vec<(u128, usize)>)
    ensures
        final(v)@.to_multiset() == old(v)@.to_multiset(),
        sorted_by(final(v)@, seed_leq()),
{
    v.sort_unstable_by_key(|e| by_position(e));
}

/// The seeds that both sets hold, ordered by position, then by k-mer.
pub open spec fn shared_sorted(a: Set<(u128, usize)>, b: Set<(u128, usize)>) -> Seq<(u128, usize)> {
    choose|q: Seq<(u128, usize)>|
        q.no_duplicates() && q.to_set() == a.intersect(b) && sorted_by(q, seed_leq())
}

/// How far a gap exceeds `k`, and 0 where it does not.
pub open spec fn excess(gap: int, k: int) -> int {
    if gap > k {
        gap - k
    } else {
        0
    }
}

/// The sum, over the first `m` consecutive pairs of `q`, of the squared
/// excess of their gap over `k`.
pub open spec fn excess_sum(q: Seq<(u128, usize)>, k: int, m: nat) -> int
    decreases m,
{
    if m == 0 {
        0
    } else {
        let e = excess(q[m as int].1 - q[m - 1].1, k);
        excess_sum(q, k, (m - 1) as nat) + e * e
    }
}

/// The sum that the L2 gap deviation is taken from: over the seeds that both
/// lists hold, in order of position.
pub open spec fn l2_total(a: Set<(u128, usize)>, b: Set<(u128, usize)>, k: int) -> int {
    let q = shared_sorted(a, b);
    if q.len() == 0 {
        0
    } else {
        excess_sum(q, k, (q.len() - 1) as nat)
    }
}

proof fn lemma_excess_sum_monotonic(q: Seq<(u128, usize)>, k: int, m1: nat, m2: nat)
    requires
        m1 <= m2,
    ensures
        0 <= excess_sum(q, k, m1) <= excess_sum(q, k, m2),
    decreases m2,
{
    if m2 > 0 {
        let e = excess(q[m2 as int].1 - q[m2 - 1].1, k);
        assert(e * e >= 0) by (nonlinear_arith);
        if m1 < m2 {
            lemma_excess_sum_monotonic(q, k, m1, (m2 - 1) as nat);
        } else {
            lemma_excess_sum_monotonic(q, k, (m2 - 1) as nat, (m2 - 1) as nat);
        }
    }
}

proof fn lemma_seed_leq_total()
    ensures
        total_ordering(seed_leq()),
{
}

/// Two duplicate-free listings of one set hold the same multiset.
proof fn lemma_listings_same_multiset(x: Seq<(u128, usize)>, y: Seq<(u128, usize)>)
    requires
        x.no_duplicates(),
        y.no_duplicates(),
        x.to_set() == y.to_set(),
    ensures
        x.to_multiset() == y.to_multiset(),
{
    broadcast use vstd::multiset::group_multiset_axioms;

    x.lemma_multiset_has_no_duplicates();
    y.lemma_multiset_has_no_duplicates();
    assert forall|e: (u128, usize)| #[trigger] x.to_multiset().count(e) == y.to_multiset().count(e) by {
        vstd::seq_lib::to_multiset_contains(x, e);
        vstd::seq_lib::to_multiset_contains(y, e);
        assert(x.contains(e) <==> x.to_set().contains(e));
        assert(y.contains(e) <==> y.to_set().contains(e));
    }
    assert(x.to_multiset() =~= y.to_multiset());
}

/// The sum of squared gap excesses over the seeds that `seeds` and
/// `seeds_mut` share, in order of position; `None` where it does not fit in
/// 128 bits. The L2 gap deviation is the square root of this sum over the
/// sequence length.
pub fn l2_sum(seeds: &[(u128, usize)], seeds_mut: &[(u128, usize)], k: usize) -> (r: Option<u128>)
    ensures
        r == (if l2_total(seeds@.to_set(), seeds_mut@.to_set(), k as int) <= u128::MAX {
            Some(l2_total(seeds@.to_set(), seeds_mut@.to_set(), k as int) as u128)
        } else {
            None
        }),
{
    broadcast use group_to_multiset_ensures;

    let mut b: FxHashSet<(u128, usize)> = FxHashSet::default();
    let mut p: usize = 0;
    while p < seeds_mut.len()
        invariant
            p <= seeds_mut@.len(),
            b@ == seeds_mut@.subrange(0, p as int).to_set(),
        decreases seeds_mut@.len() - p,
    {
        proof {
            assert(seeds_mut@.subrange(0, p + 1) =~= seeds_mut@.subrange(0, p as int).push(seeds_mut@[p as int]));
            seeds_mut@.subrange(0, p as int).lemma_push_to_set_commute(seeds_mut@[p as int]);
        }
        fx_insert_seed(&mut b, seeds_mut[p]);
        p += 1;
    }
    assert(seeds_mut@.subrange(0, seeds_mut@.len() as int) =~= seeds_mut@);
    let ghost sb = seeds_mut@.to_set();
    let mut seen: FxHashSet<(u128, usize)> = FxHashSet::default();
    let mut common: Vec<(u128, usize)> = Vec::new();
    let mut i: usize = 0;
    while i < seeds.len()
        invariant
            i <= seeds@.len(),
            b@ == sb,
            seen@ == seeds@.subrange(0, i as int).to_set().intersect(sb),
            common@.to_set() == seen@,
            common@.no_duplicates(),
        decreases seeds@.len() - i,
    {
        let e = seeds[i];
        proof {
            assert(seeds@.subrange(0, i + 1) =~= seeds@.subrange(0, i as int).push(e));
            seeds@.subrange(0, i as int).lemma_push_to_set_commute(e);
        }
        if fx_contains_seed(&b, &e) && !fx_contains_seed(&seen, &e) {
            proof {
                common@.lemma_push_to_set_commute(e);
            }
            common.push(e);
            fx_insert_seed(&mut seen, e);
            assert(seen@ =~= seeds@.subrange(0, i + 1).to_set().intersect(sb));
        } else {
            assert(seen@ =~= seeds@.subrange(0, i + 1).to_set().intersect(sb));
        }
        i += 1;
    }
    assert(seeds@.subrange(0, seeds@.len() as int) =~= seeds@);
    let ghost unsorted = common@;
    sort_by_position(&mut common);
    let ghost q = shared_sorted(seeds@.to_set(), sb);
    proof {
        lemma_seed_leq_total();
        unsorted.lemma_multiset_has_no_duplicates();
        common@.lemma_multiset_has_no_duplicates_conv();
        assert forall|e: (u128, usize)| #[trigger] common@.contains(e) <==> unsorted.contains(e) by {
            vstd::seq_lib::to_multiset_contains(common@, e);
            vstd::seq_lib::to_multiset_contains(unsorted, e);
        }
        assert(common@.to_set() =~= unsorted.to_set());
        assert(common@.to_set() =~= seeds@.to_set().intersect(sb));
        assert(common@.no_duplicates() && common@.to_set() == seeds@.to_set().intersect(sb)
            && sorted_by(common@, seed_leq()));
        lemma_listings_same_multiset(common@, q);
        lemma_sorted_unique(common@, q, seed_leq());
    }
    if common.len() == 0 {
        return Some(0);
    }
    let n_gaps = common.len() - 1;
    let mut sum: u128 = 0;
    let mut j: usize = 0;
    while j < n_gaps
        invariant
            common@ == q,
            q == shared_sorted(seeds@.to_set(), seeds_mut@.to_set()),
            q.len() >= 1,
            n_gaps == q.len() - 1,
            sorted_by(q, seed_leq()),
            j <= n_gaps,
            sum == excess_sum(q, k as int, j as nat),
        decreases n_gaps - j,
    {
        assert(seed_leq()(q[j as int], q[j + 1]));
        let gap = common[j + 1].1 - common[j].1;
        let over: usize = if gap > k {
            gap - k
        } else {
            0
        };
        let over_wide = over as u128;
        proof {
            assert(over_wide * over_wide <= 0xffff_ffff_ffff_ffff * 0xffff_ffff_ffff_ffff) by (nonlinear_arith)
                requires
                    over_wide <= 0xffff_ffff_ffff_ffff,
            ;
        }
        let sq = over_wide * over_wide;
        if sum > u128::MAX - sq {
            proof {
                assert(excess(q[j + 1].1 - q[j as int].1, k as int) == over);
                assert(excess_sum(q, k as int, (j + 1) as nat) == sum + sq);
                lemma_excess_sum_monotonic(q, k as int, (j + 1) as nat, n_gaps as nat);
            }
            return None;
        }
        sum = sum + sq;
        j += 1;
    }
    Some(sum)
}

/// The L2 sum is symmetric: the seeds that `a` and `b` share are those that
/// `b` and `a` share.
pub proof fn lemma_l2_symmetric(a: Seq<(u128, usize)>, b: Seq<(u128, usize)>, k: int)
    ensures
        l2_total(a.to_set(), b.to_set(), k) == l2_total(b.to_set(), a.to_set(), k),
{
    assert(a.to_set().intersect(b.to_set()) =~= b.to_set().intersect(a.to_set()));
}

/// Conservation is symmetric: the positions covered by the seeds shared by
/// `a` and `b` are those covered by the seeds shared by `b` and `a`.
pub proof fn lemma_conservation_symmetric(a: Seq<(u128, usize)>, b: Seq<(u128, usize)>, k: int)
    ensures
        covered(a.to_set(), b.to_set(), k) == covered(b.to_set(), a.to_set(), k),
        covered(a.to_set(), b.to_set(), k).len() == covered(b.to_set(), a.to_set(), k).len(),
{
    assert(covered(a.to_set(), b.to_set(), k) =~= covered(b.to_set(), a.to_set(), k));
}

} // verus!
