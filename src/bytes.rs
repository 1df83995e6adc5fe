use vstd::arithmetic::power2::{lemma2_to64, lemma_pow2_adds, lemma_pow2_pos, pow2};
use vstd::prelude::*;

verus! {

/// The unsigned integer that a byte sequence encodes, least significant byte first.
pub open spec fn le_nat(s: Seq<u8>) -> nat
    decreases s.len(),
{
    if s.len() == 0 {
        0
    } else {
        s[0] as nat + 256 * le_nat(s.drop_first())
    }
}

pub proof fn lemma_pow2_bytes(n: nat)
    requires
        n > 0,
    ensures
        pow2(8 * n) == 256 * pow2(8 * (n - 1) as nat),
{
    lemma2_to64();
    lemma_pow2_adds(8, 8 * (n - 1) as nat);
    assert(8 * n == 8 + 8 * (n - 1) as nat);
}

/// An encoding of `n` bytes stays below `2^(8n)`.
pub proof fn lemma_le_nat_bound(s: Seq<u8>)
    ensures
        le_nat(s) < pow2(8 * s.len()),
    decreases s.len(),
{
    if s.len() == 0 {
        lemma2_to64();
    } else {
        lemma_le_nat_bound(s.drop_first());
        lemma_pow2_bytes(s.len());
    }
}

/// The encoding of a concatenation.
pub proof fn lemma_le_nat_concat(a: Seq<u8>, b: Seq<u8>)
    ensures
        le_nat(a + b) == le_nat(a) + pow2(8 * a.len()) * le_nat(b),
    decreases a.len(),
{
    if a.len() == 0 {
        assert(a + b =~= b);
        lemma2_to64();
    } else {
        assert((a + b).drop_first() =~= a.drop_first() + b);
        lemma_le_nat_concat(a.drop_first(), b);
        lemma_pow2_bytes(a.len());
        let p = pow2(8 * (a.len() - 1) as nat);
        let x = le_nat(b);
        assert(256 * (p * x) == (256 * p) * x) by (nonlinear_arith);
    }
}

/// Reads `n` bytes at `at` as an unsigned little-endian integer.
pub fn read_le(s: &[u8], at: usize, n: usize) -> (r: u128)
    requires
        n <= 15,
        at + n <= s@.len(),
    ensures
        r as nat == le_nat(s@.subrange(at as int, at + n)),
        (r as nat) < pow2(8 * n as nat),
{
    let len = s.len();
    let mut v: u128 = 0;
    let mut i: usize = n;
    proof {
        lemma2_to64();
    }
    while i > 0
        invariant
            0 <= i <= n,
            n <= 15,
            at + n <= s@.len(),
            len == s@.len(),
            v as nat == le_nat(s@.subrange(at + i, at + n)),
            (v as nat) < pow2(8 * (n - i) as nat),
        decreases i,
    {
        let ghost old_v = v;
        i = i - 1;
        proof {
            let t = s@.subrange(at + i, at + n);
            assert(t.drop_first() =~= s@.subrange(at + i + 1, at + n));
            lemma_le_nat_bound(t);
            lemma_pow2_bytes((n - i) as nat);
            vstd::arithmetic::power2::lemma_pow2_strictly_increases(8 * (n - i - 1) as nat, 120);
            lemma2_to64();
            vstd::arithmetic::power2::lemma2_to64_rest();
            lemma_pow2_adds(64, 56);
            let p64 = pow2(64);
            let p56 = pow2(56);
            assert(p64 * p56 == 0x1000000000000000000000000000000) by (nonlinear_arith)
                requires
                    p64 == 0x10000000000000000,
                    p56 == 0x100000000000000,
            ;
            assert(v < 0x1000000000000000000000000000000);
        }
        let b = s[at + i];
        v = b as u128 + v * 256;
    }
    v
}

/// Reads a little-endian `u16` at `at`.
pub fn read_u16_le(s: &[u8], at: usize) -> (r: u16)
    requires
        at + 2 <= s@.len(),
    ensures
        r as nat == le_nat(s@.subrange(at as int, at + 2)),
{
    proof {
        lemma2_to64();
    }
    read_le(s, at, 2) as u16
}

/// Reads a little-endian `u32` at `at`.
pub fn read_u32_le(s: &[u8], at: usize) -> (r: u32)
    requires
        at + 4 <= s@.len(),
    ensures
        r as nat == le_nat(s@.subrange(at as int, at + 4)),
{
    proof {
        lemma2_to64();
    }
    read_le(s, at, 4) as u32
}

/// Reads a little-endian `u64` at `at`.
pub fn read_u64_le(s: &[u8], at: usize) -> (r: u64)
    requires
        at + 8 <= s@.len(),
    ensures
        r as nat == le_nat(s@.subrange(at as int, at + 8)),
{
    proof {
        lemma2_to64();
    }
    read_le(s, at, 8) as u64
}

} // verus!
