//! Two-bit encoding of bases and the packed value of a k-mer.
use vstd::arithmetic::div_mod::lemma_fundamental_div_mod_converse;
use vstd::prelude::*;

verus! {

/// The two-bit code of a byte: A/a is 0, C/c is 1, G/g is 2, T/t is 3, and
/// every other byte is read as 0, the code of A.
pub open spec fn base_code(b: u8) -> nat {
    if b == 65 || b == 97 {
        0
    } else if b == 67 || b == 99 {
        1
    } else if b == 71 || b == 103 {
        2
    } else if b == 84 || b == 116 {
        3
    } else {
        0
    }
}

/// Looks up the two-bit code of a byte.
pub fn byte_to_bits(b: u8) -> (r: u8)
    ensures
        r as nat == base_code(b),
        r < 4,
{
    match b {
        65 | 97 => 0,
        67 | 99 => 1,
        71 | 103 => 2,
        84 | 116 => 3,
        _ => 0,
    }
}

pub open spec fn pow4(e: nat) -> nat
    decreases e,
{
    if e == 0 {
        1
    } else {
        4 * pow4((e - 1) as nat)
    }
}

/// The packed value of a run of bases: two bits per base, the first base in
/// the most significant place.
pub open spec fn pack(s: Seq<u8>) -> nat
    decreases s.len(),
{
    if s.len() == 0 {
        0
    } else {
        pack(s.drop_last()) * 4 + base_code(s.last())
    }
}

pub proof fn lemma_pow4_positive(e: nat)
    ensures
        pow4(e) >= 1,
    decreases e,
{
    if e > 0 {
        lemma_pow4_positive((e - 1) as nat);
    }
}

pub proof fn lemma_pow4_monotonic(a: nat, b: nat)
    requires
        a <= b,
    ensures
        pow4(a) <= pow4(b),
    decreases b,
{
    if a < b {
        lemma_pow4_monotonic(a, (b - 1) as nat);
        lemma_pow4_positive((b - 1) as nat);
    }
}

pub proof fn lemma_pow4_63()
    ensures
        pow4(63) == 0x4000_0000_0000_0000_0000_0000_0000_0000,
{
    reveal_with_fuel(pow4, 64);
}

pub proof fn lemma_pack_bound(s: Seq<u8>)
    ensures
        pack(s) < pow4(s.len()),
    decreases s.len(),
{
    if s.len() > 0 {
        lemma_pack_bound(s.drop_last());
    }
}

/// Packing a concatenation shifts the first part up by the second's length.
pub proof fn lemma_pack_concat(a: Seq<u8>, b: Seq<u8>)
    ensures
        pack(a + b) == pack(a) * pow4(b.len()) + pack(b),
    decreases b.len(),
{
    if b.len() == 0 {
        assert(a + b =~= a);
        assert(pow4(0) == 1);
        assert(pack(a) * 1 == pack(a));
    } else {
        assert((a + b).drop_last() =~= a + b.drop_last());
        assert((a + b).last() == b.last());
        lemma_pack_concat(a, b.drop_last());
        let pa = pack(a);
        let p = pow4((b.len() - 1) as nat);
        let pb = pack(b.drop_last());
        assert(pow4(b.len()) == 4 * p);
        assert((pa * p + pb) * 4 == pa * (4 * p) + pb * 4) by (nonlinear_arith);
    }
}

/// Dropping the first base of a window is the remainder by `4^(len - 1)`.
pub proof fn lemma_pack_drop_first(s: Seq<u8>)
    requires
        s.len() >= 1,
    ensures
        pack(s) % pow4((s.len() - 1) as nat) == pack(s.subrange(1, s.len() as int)),
{
    let head = s.subrange(0, 1);
    let rest = s.subrange(1, s.len() as int);
    assert(s =~= head + rest);
    lemma_pack_concat(head, rest);
    lemma_pack_bound(rest);
    lemma_pow4_positive(rest.len());
    lemma_fundamental_div_mod_converse(
        pack(s) as int,
        pow4(rest.len()) as int,
        pack(head) as int,
        pack(rest) as int,
    );
}

/// The sub-window `[j, j + len)` of a packed window, read back by division and remainder.
pub proof fn lemma_pack_sub(w: Seq<u8>, j: int, len: nat)
    requires
        0 <= j,
        j + len <= w.len(),
    ensures
        (pack(w) / pow4((w.len() - j - len) as nat)) % pow4(len) == pack(w.subrange(j, j + len)),
{
    let n = w.len() as int;
    let front = w.subrange(0, j + len);
    let back = w.subrange(j + len, n);
    assert(w =~= front + back);
    lemma_pack_concat(front, back);
    lemma_pack_bound(back);
    lemma_pow4_positive(back.len());
    lemma_fundamental_div_mod_converse(
        pack(w) as int,
        pow4(back.len()) as int,
        pack(front) as int,
        pack(back) as int,
    );
    assert(back.len() == (w.len() - j - len) as nat);
    let pre = w.subrange(0, j);
    let mid = w.subrange(j, j + len);
    assert(front =~= pre + mid);
    lemma_pack_concat(pre, mid);
    lemma_pack_bound(mid);
    lemma_pow4_positive(len);
    lemma_fundamental_div_mod_converse(
        pack(front) as int,
        pow4(len) as int,
        pack(pre) as int,
        pack(mid) as int,
    );
}

/// Appending one base to a packed run.
pub proof fn lemma_pack_push(s: Seq<u8>, b: u8)
    ensures
        pack(s.push(b)) == pack(s) * 4 + base_code(b),
{
    assert(s.push(b).drop_last() =~= s);
}

/// The table `[4^0, 4^1, ..., 4^n]`.
pub fn pow4_table(n: usize) -> (v: Vec<u128>)
    requires
        n <= 63,
    ensures
        v.len() == n + 1,
        forall|e: int| 0 <= e <= n ==> v@[e] as nat == pow4(e as nat),
{
    let mut v: Vec<u128> = Vec::new();
    v.push(1);
    let mut e: usize = 0;
    while e < n
        invariant
            n <= 63,
            e <= n,
            v.len() == e + 1,
            forall|i: int| 0 <= i <= e ==> v@[i] as nat == pow4(i as nat),
        decreases n - e,
    {
        proof {
            lemma_pow4_monotonic((e + 1) as nat, 63);
            lemma_pow4_63();
        }
        let next: u128 = v[e] * 4;
        v.push(next);
        e += 1;
    }
    v
}

} // verus!
