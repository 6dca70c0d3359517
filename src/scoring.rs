//! The scoring hash and the choice of a minimal-scoring offset.
use std::hash::{Hash, Hasher};
use vstd::prelude::*;
use wyhash::WyHash;

verus! {

/// What wyhash's `WyHash` hasher, started from `seed`, finishes with after
/// hashing the 128-bit integer `kmer`.
pub uninterp spec fn kmer_hash(seed: u64, kmer: u128) -> u64;

/// What wyhash's `WyHash` hasher, started from `seed`, finishes with after
/// hashing the byte slice `bytes` (its length, then its bytes).
pub uninterp spec fn bytes_hash(seed: u64, bytes: Seq<u8>) -> u64;

/// Relies on `wyhash::WyHash::with_seed`, `Hash for u128` and `Hasher::finish`:
/// the hasher has no state but the seed, so the result depends on the two
/// arguments alone (on a given target).
#[verifier::external_body]
pub(crate) fn hash(seed: u64, kmer: u128) -> (r: u64)
    ensures
        r == kmer_hash(seed, kmer),
{
    let mut h = WyHash::with_seed(seed);
    kmer.hash(&mut h);
    h.finish()
}

/// Relies on `wyhash::WyHash::with_seed`, `Hash for [u8]` and `Hasher::finish`:
/// the result depends on the seed and the bytes alone (on a given target).
#[verifier::external_body]
pub(crate) fn hash_slice(seed: u64, bytes: &[u8]) -> (r: u64)
    ensures
        r == bytes_hash(seed, bytes@),
{
    let mut h = WyHash::with_seed(seed);
    bytes.hash(&mut h);
    h.finish()
}

/// Among the offsets `0..n`, the one of least score; of several with the
/// least score, the last.
pub open spec fn last_argmin(f: spec_fn(int) -> u64, n: nat) -> int
    decreases n,
{
    if n <= 1 {
        0
    } else {
        let j = last_argmin(f, (n - 1) as nat);
        if f(n - 1) <= f(j) {
            n - 1
        } else {
            j
        }
    }
}

/// `j` scores least among `0..n`, and every later offset scores more.
pub open spec fn is_last_min(f: spec_fn(int) -> u64, n: int, j: int) -> bool {
    &&& 0 <= j < n
    &&& forall|t: int| 0 <= t < n ==> #[trigger] f(t) >= f(j)
    &&& forall|t: int| j < t < n ==> #[trigger] f(t) > f(j)
}

pub proof fn lemma_last_argmin(f: spec_fn(int) -> u64, n: nat)
    requires
        n >= 1,
    ensures
        is_last_min(f, n as int, last_argmin(f, n)),
    decreases n,
{
    if n > 1 {
        lemma_last_argmin(f, (n - 1) as nat);
    }
}

/// The last-minimum offset is the only one of its kind.
pub proof fn lemma_last_min_unique(f: spec_fn(int) -> u64, n: int, a: int, b: int)
    requires
        is_last_min(f, n, a),
        is_last_min(f, n, b),
    ensures
        a == b,
{
    if a < b {
        assert(f(b) > f(a));
        assert(f(a) >= f(b));
    } else if b < a {
        assert(f(a) > f(b));
        assert(f(b) >= f(a));
    }
}

/// Among the offsets `0..n`, the one of least key; of several with the least
/// key, the first.
pub open spec fn first_argmin(f: spec_fn(int) -> int, n: nat) -> int
    decreases n,
{
    if n <= 1 {
        0
    } else {
        let j = first_argmin(f, (n - 1) as nat);
        if f(n - 1) < f(j) {
            n - 1
        } else {
            j
        }
    }
}

/// `j` has the least key among `0..n`, and every earlier offset a greater one.
pub open spec fn is_first_min(f: spec_fn(int) -> int, n: int, j: int) -> bool {
    &&& 0 <= j < n
    &&& forall|t: int| 0 <= t < n ==> #[trigger] f(t) >= f(j)
    &&& forall|t: int| 0 <= t < j ==> #[trigger] f(t) > f(j)
}

pub proof fn lemma_first_argmin(f: spec_fn(int) -> int, n: nat)
    requires
        n >= 1,
    ensures
        is_first_min(f, n as int, first_argmin(f, n)),
    decreases n,
{
    if n > 1 {
        lemma_first_argmin(f, (n - 1) as nat);
    }
}

/// The first-minimum offset is the only one of its kind.
pub proof fn lemma_first_min_unique(f: spec_fn(int) -> int, n: int, a: int, b: int)
    requires
        is_first_min(f, n, a),
        is_first_min(f, n, b),
    ensures
        a == b,
{
    if a < b {
        assert(f(a) > f(b));
        assert(f(a) >= f(b) && f(b) >= f(a));
    } else if b < a {
        assert(f(b) > f(a));
        assert(f(a) >= f(b));
    }
}

/// Stepping back one offset modulo `w`.
pub proof fn lemma_mod_step_back(x: int, w: int)
    requires
        x >= 1,
        w >= 1,
    ensures
        x % w >= 1 ==> (x - 1) % w == x % w - 1,
        x % w == 0 ==> (x - 1) % w == w - 1,
{
    vstd::arithmetic::div_mod::lemma_fundamental_div_mod(x, w);
    let q = x / w;
    let r = x % w;
    assert(w * q == q * w) by (nonlinear_arith);
    if r >= 1 {
        vstd::arithmetic::div_mod::lemma_fundamental_div_mod_converse(x - 1, w, q, r - 1);
    } else {
        assert(w * q == q * w) by (nonlinear_arith);
        assert((q - 1) * w == q * w - w) by (nonlinear_arith);
        vstd::arithmetic::div_mod::lemma_fundamental_div_mod_converse(x - 1, w, q - 1, w - 1);
    }
}

/// Bit `j` of `mask` is set.
pub open spec fn mask_has(mask: u64, j: int) -> bool {
    0 <= j < 64 && (mask >> (j as u64)) & 1 == 1
}

pub proof fn lemma_mask_or_bit(mask: u64, p: u64, j: u64)
    requires
        p < 64,
        j < 64,
    ensures
        ((mask | (1u64 << p)) >> j) & 1 == 1 <==> ((mask >> j) & 1 == 1 || j == p),
{
    assert(((mask | (1u64 << p)) >> j) & 1 == 1 <==> ((mask >> j) & 1 == 1 || j == p))
        by (bit_vector)
        requires
            p < 64,
            j < 64,
    ;
}

pub proof fn lemma_mask_empty(j: u64)
    requires
        j < 64,
    ensures
        (0u64 >> j) & 1 != 1,
{
    assert((0u64 >> j) & 1 != 1) by (bit_vector);
}

} // verus!
