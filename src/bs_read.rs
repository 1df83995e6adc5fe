use crate::bytes::{le_nat, lemma_le_nat_bound, lemma_le_nat_concat, read_le};
use vstd::arithmetic::div_mod::{
    lemma_div_denominator,
    lemma_fundamental_div_mod,
    lemma_fundamental_div_mod_converse,
};
use vstd::arithmetic::power2::{lemma2_to64, lemma_pow2_adds, lemma_pow2_pos, pow2};
use vstd::bits::{lemma_u128_shr_is_div, lemma_u64_pow2_no_overflow, lemma_u64_shl_is_mul};
use vstd::prelude::*;

verus! {

/// The low `n` bits of the bit string `v`.
pub open spec fn take_bits(v: nat, n: nat) -> nat {
    v % pow2(n)
}

/// The bit string `v` without its low `n` bits.
pub open spec fn drop_bits(v: nat, n: nat) -> nat {
    v / pow2(n)
}

/// Adding a multiple of `d` moves the quotient by that multiple and keeps the remainder.
pub proof fn lemma_div_add_multiple(a: nat, d: nat, k: nat)
    requires
        d > 0,
    ensures
        (a + d * k) / d == a / d + k,
        (a + d * k) % d == a % d,
{
    lemma_fundamental_div_mod(a as int, d as int);
    let q = a / d;
    let r = a % d;
    assert(a + d * k == (q + k) * d + r) by (nonlinear_arith)
        requires
            a == d * q + r,
    ;
    lemma_fundamental_div_mod_converse((a + d * k) as int, d as int, (q + k) as int, r as int);
}

/// Dropping bits from a concatenation `lo + 2^(8u) * hi` where `lo` has `u` bytes.
proof fn lemma_drop_low_bytes(lo: nat, hi: nat, u: nat)
    requires
        lo < pow2(8 * u),
    ensures
        (lo + pow2(8 * u) * hi) / pow2(8 * u) == hi,
{
    lemma_pow2_pos(8 * u);
    lemma_div_add_multiple(lo, pow2(8 * u), hi);
    lemma_fundamental_div_mod_converse(lo as int, pow2(8 * u) as int, 0, lo as int);
}

/// The bits of a window of `end` bytes that cover the first `off + bits` bits of `b` are those
/// of `b`.
proof fn lemma_window(b: Seq<u8>, end: nat, off: nat, bits: nat)
    requires
        end <= b.len(),
        off + bits <= 8 * end,
    ensures
        (le_nat(b.take(end as int)) / pow2(off)) % pow2(bits) == (le_nat(b) / pow2(off)) % pow2(
            bits,
        ),
{
    let w = b.take(end as int);
    let x = b.skip(end as int);
    assert(b =~= w + x);
    lemma_le_nat_concat(w, x);
    lemma_pow2_pos(off);
    lemma_pow2_pos(bits);
    let rest = (8 * end - off - bits) as nat;
    lemma_pow2_adds(off, (8 * end - off) as nat);
    lemma_pow2_adds(bits, rest);
    let k = pow2(rest) * le_nat(x);
    let p8 = pow2(8 * end);
    let po = pow2(off);
    let pb = pow2(bits);
    let pm = pow2((8 * end - off) as nat);
    assert(p8 * le_nat(x) == po * (pb * k)) by (nonlinear_arith)
        requires
            p8 == po * pm,
            pm == pb * pow2(rest),
            k == pow2(rest) * le_nat(x),
    ;
    lemma_div_add_multiple(le_nat(w), po, pb * k);
    lemma_div_add_multiple(le_nat(w) / po, pb, k);
}

/// Consuming `used` whole bytes and moving to bit `new_off` drops `bits` bits from a stream
/// that stood at bit `off`.
proof fn lemma_consume(b: Seq<u8>, used: nat, off: nat, bits: nat, new_off: nat)
    requires
        used <= b.len(),
        off + bits == 8 * used + new_off,
    ensures
        le_nat(b.skip(used as int)) / pow2(new_off) == (le_nat(b) / pow2(off)) / pow2(bits),
{
    let lo = b.take(used as int);
    let hi = b.skip(used as int);
    assert(b =~= lo + hi);
    lemma_le_nat_concat(lo, hi);
    lemma_le_nat_bound(lo);
    lemma_drop_low_bytes(le_nat(lo), le_nat(hi), used);
    lemma_pow2_pos(off);
    lemma_pow2_pos(bits);
    lemma_pow2_pos(8 * used);
    lemma_pow2_pos(new_off);
    lemma_div_denominator(le_nat(b) as int, pow2(off) as int, pow2(bits) as int);
    lemma_pow2_adds(off, bits);
    lemma_pow2_adds(8 * used, new_off);
    lemma_div_denominator(le_nat(b) as int, pow2(8 * used) as int, pow2(new_off) as int);
}

/// Packs `(width, value)` pairs into one bit string, the first pair in the lowest bits.
pub open spec fn pack_bits(fields: Seq<(nat, nat)>) -> nat
    decreases fields.len(),
{
    if fields.len() == 0 {
        0
    } else {
        fields[0].1 + pow2(fields[0].0) * pack_bits(fields.drop_first())
    }
}

/// Reads values of the given widths one after the other from the bit string `v`.
pub open spec fn unpack_bits(v: nat, widths: Seq<nat>) -> Seq<nat>
    decreases widths.len(),
{
    if widths.len() == 0 {
        Seq::empty()
    } else {
        seq![take_bits(v, widths[0])] + unpack_bits(drop_bits(v, widths[0]), widths.drop_first())
    }
}

/// Packing values of widths from 1 to 56 bits, or of 64 bits, each value fitting its width,
/// and then extracting them with the same widths gives back the same values in order.
pub proof fn lemma_pack_extract_round_trip(fields: Seq<(nat, nat)>)
    requires
        forall|i: int|
            0 <= i < fields.len() ==> ((1 <= #[trigger] fields[i].0 <= 56 || fields[i].0 == 64)
                && fields[i].1 < pow2(fields[i].0)),
    ensures
        unpack_bits(pack_bits(fields), fields.map_values(|f: (nat, nat)| f.0)) == fields.map_values(
            |f: (nat, nat)| f.1,
        ),
    decreases fields.len(),
{
    let widths = fields.map_values(|f: (nat, nat)| f.0);
    let values = fields.map_values(|f: (nat, nat)| f.1);
    if fields.len() == 0 {
        assert(values =~= Seq::<nat>::empty());
    } else {
        let rest = fields.drop_first();
        assert(rest.map_values(|f: (nat, nat)| f.0) =~= widths.drop_first());
        assert forall|i: int|
            0 <= i < rest.len() implies ((1 <= #[trigger] rest[i].0 <= 56 || rest[i].0 == 64)
                && rest[i].1 < pow2(rest[i].0)) by {
            assert(rest[i] == fields[i + 1]);
        }
        lemma_pack_extract_round_trip(rest);
        let w = fields[0].0;
        let v = fields[0].1;
        lemma_pow2_pos(w);
        lemma_div_add_multiple(v, pow2(w), pack_bits(rest));
        lemma_fundamental_div_mod_converse(v as int, pow2(w) as int, 0, v as int);
        assert(take_bits(pack_bits(fields), w) == v);
        assert(drop_bits(pack_bits(fields), w) == pack_bits(rest));
        assert(unpack_bits(pack_bits(fields), widths) =~= values);
    }
}

/// A bit stream read from a sequence of byte slices, least significant bit first.
#[derive(Clone)]
pub struct ByteStreamReadBuffer {
    buffer: Vec<u8>,
    buffer_offset: usize,
    offset: u32,
}

impl ByteStreamReadBuffer {
    pub closed spec fn wf(&self) -> bool {
        &&& self.buffer_offset <= self.buffer@.len()
        &&& self.offset < 8
        &&& self.offset > 0 ==> self.buffer_offset < self.buffer@.len()
    }

    /// The unread bits, as a number whose lowest bit is read next.
    pub closed spec fn bits(&self) -> nat {
        le_nat(self.buffer@.skip(self.buffer_offset as int)) / pow2(self.offset as nat)
    }

    /// The number of unread bits.
    pub closed spec fn available_bits(&self) -> nat {
        (8 * (self.buffer@.len() - self.buffer_offset) - self.offset) as nat
    }

    /// An empty stream.
    pub fn new() -> (r: Self)
        ensures
            r.wf(),
            r.bits() == 0,
            r.available_bits() == 0,
    {
        let r = Self { buffer: Vec::new(), buffer_offset: 0, offset: 0 };
        proof {
            assert(r.buffer@.skip(0) =~= Seq::<u8>::empty());
            lemma2_to64();
        }
        r
    }

    /// Number of unread bits.
    pub fn available(&self) -> (r: u128)
        requires
            self.wf(),
        ensures
            r == self.available_bits(),
    {
        (self.buffer.len() - self.buffer_offset) as u128 * 8 - self.offset as u128
    }

    /// Appends the bytes of `data` behind the unread bits.
    pub fn append(&mut self, data: Vec<u8>)
        requires
            old(self).wf(),
        ensures
            final(self).wf(),
            final(self).bits() == old(self).bits() + pow2(old(self).available_bits())
                * le_nat(data@),
            final(self).available_bits() == old(self).available_bits() + 8 * data@.len(),
    {
        let ghost rest = self.buffer@.skip(self.buffer_offset as int);
        let mut merged: Vec<u8> = Vec::new();
        let mut i: usize = self.buffer_offset;
        while i < self.buffer.len()
            invariant
                self.buffer_offset <= i <= self.buffer@.len(),
                merged@ == self.buffer@.subrange(self.buffer_offset as int, i as int),
            decreases self.buffer@.len() - i,
        {
            merged.push(self.buffer[i]);
            i = i + 1;
        }
        let mut j: usize = 0;
        while j < data.len()
            invariant
                j <= data@.len(),
                merged@ == rest + data@.take(j as int),
                rest == self.buffer@.skip(self.buffer_offset as int),
            decreases data@.len() - j,
        {
            proof {
                assert(data@.take(j + 1) =~= data@.take(j as int).push(data@[j as int]));
            }
            merged.push(data[j]);
            j = j + 1;
        }
        proof {
            assert(self.buffer@.subrange(self.buffer_offset as int, self.buffer@.len() as int) =~= rest);
            assert(data@.take(data@.len() as int) =~= data@);
            assert(merged@.skip(0) =~= rest + data@);
            let off = self.offset as nat;
            let n = rest.len();
            lemma_le_nat_concat(rest, data@);
            // 2^(8n) = 2^off * 2^(8n - off), since off <= 8n
            lemma_pow2_adds(off, (8 * n - off) as nat);
            lemma_pow2_pos(off);
            let k = pow2((8 * n - off) as nat) * le_nat(data@);
            assert(pow2(8 * n) * le_nat(data@) == pow2(off) * k) by (nonlinear_arith)
                requires
                    pow2(8 * n) == pow2(off) * pow2((8 * n - off) as nat),
                    k == pow2((8 * n - off) as nat) * le_nat(data@),
            ;
            lemma_div_add_multiple(le_nat(rest), pow2(off), k);
        }
        self.buffer = merged;
        self.buffer_offset = 0;
    }

    /// Takes the next `bits` bits as an unsigned integer, or returns `None` and leaves the
    /// stream as it is when fewer bits are available.
    pub fn extract_int(&mut self, bits: u32) -> (r: Option<u64>)
        requires
            old(self).wf(),
            1 <= bits <= 64,
        ensures
            final(self).wf(),
            old(self).available_bits() < bits ==> r is None && *final(self) == *old(self),
            old(self).available_bits() >= bits ==> (r matches Some(v) && v as nat == take_bits(
                old(self).bits(),
                bits as nat,
            )) && final(self).bits() == drop_bits(old(self).bits(), bits as nat)
                && final(self).available_bits() == old(self).available_bits() - bits,
    {
        if self.available() < bits as u128 {
            return None;
        }
        let off = self.offset;
        let end = ((off + bits + 7) / 8) as usize;
        let used = ((off + bits) / 8) as usize;
        proof {
            let room = self.buffer@.len() - self.buffer_offset;
            assert(off + bits <= 8 * room);
            assert(used <= end <= room);
        }
        let window = read_le(&self.buffer, self.buffer_offset, end);
        proof {
            lemma2_to64();
            lemma_u128_shr_is_div(window, off as u128);
        }
        let shifted = window >> off;
        let modulus: u128 = if bits == 64 {
            0x1_0000_0000_0000_0000
        } else {
            proof {
                lemma_u64_pow2_no_overflow(bits as nat);
                lemma_u64_shl_is_mul(1, bits as u64);
            }
            (1u64 << bits) as u128
        };
        let value = shifted % modulus;
        proof {
            let b = self.buffer@.skip(self.buffer_offset as int);
            assert(self.buffer@.subrange(self.buffer_offset as int, self.buffer_offset + end)
                =~= b.take(end as int));
            lemma_window(b, end as nat, off as nat, bits as nat);
            lemma_pow2_pos(bits as nat);
            lemma_u64_pow2_no_overflow(63);
            vstd::arithmetic::power2::lemma_pow2_unfold(64);
            assert(value < pow2(bits as nat));
            if bits < 64 {
                vstd::arithmetic::power2::lemma_pow2_strictly_increases(bits as nat, 64);
            }
        }
        let ghost old_self = *self;
        let len = self.buffer.len();
        assert(self.buffer_offset + used <= len);
        self.buffer_offset = self.buffer_offset + used;
        self.offset = (off + bits) % 8;
        proof {
            let b = old_self.buffer@.skip(old_self.buffer_offset as int);
            assert(self.buffer@.skip(self.buffer_offset as int) =~= b.skip(used as int));
            lemma_consume(b, used as nat, off as nat, bits as nat, self.offset as nat);
        }
        Some(value as u64)
    }
}

} // verus!
