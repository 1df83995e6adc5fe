use vstd::prelude::*;

verus! {

/// The Castagnoli polynomial in reflected bit order.
pub const CASTAGNOLI_REFLECTED: u32 = 0x82F6_3B78;

/// One bit-wise step of the reflected CRC division.
pub open spec fn crc_bit_step(c: u32) -> u32 {
    (c >> 1) ^ (if c & 1 == 1 {
        0x82F6_3B78u32
    } else {
        0u32
    })
}

/// `k` bit-wise steps.
pub open spec fn crc_bit_steps(c: u32, k: nat) -> u32
    decreases k,
{
    if k == 0 {
        c
    } else {
        crc_bit_steps(crc_bit_step(c), (k - 1) as nat)
    }
}

/// The table entry for byte value `i`: eight bit steps.
pub open spec fn crc_table_entry(i: u32) -> u32 {
    crc_bit_steps(i, 8)
}

/// Feeds one byte into a running (inverted) checksum.
pub open spec fn crc_update(sum: u32, b: u8) -> u32 {
    crc_table_entry((sum ^ b as u32) % 256) ^ (sum >> 8)
}

/// The running checksum after feeding all bytes of `s`, starting from all ones.
pub open spec fn crc_state(s: Seq<u8>) -> u32
    decreases s.len(),
{
    if s.len() == 0 {
        0xffff_ffff
    } else {
        crc_update(crc_state(s.drop_last()), s.last())
    }
}

/// CRC32C (Castagnoli) of a byte sequence: initial value and final xor are all ones.
pub open spec fn crc32c(s: Seq<u8>) -> u32 {
    !crc_state(s)
}

/// The bit step is linear over xor.
proof fn lemma_bit_step_linear(a: u32, b: u32)
    ensures
        crc_bit_step(a ^ b) == crc_bit_step(a) ^ crc_bit_step(b),
{
    assert(((a ^ b) >> 1) ^ (if (a ^ b) & 1 == 1 {
        0x82F6_3B78u32
    } else {
        0u32
    }) == ((a >> 1) ^ (if a & 1 == 1 {
        0x82F6_3B78u32
    } else {
        0u32
    })) ^ ((b >> 1) ^ (if b & 1 == 1 {
        0x82F6_3B78u32
    } else {
        0u32
    }))) by (bit_vector);
}

/// `k` bit steps are linear over xor.
proof fn lemma_bit_steps_linear(a: u32, b: u32, k: nat)
    ensures
        crc_bit_steps(a ^ b, k) == crc_bit_steps(a, k) ^ crc_bit_steps(b, k),
    decreases k,
{
    if k > 0 {
        lemma_bit_step_linear(a, b);
        lemma_bit_steps_linear(crc_bit_step(a), crc_bit_step(b), (k - 1) as nat);
    }
}

/// Bit steps keep a nonzero register nonzero.
proof fn lemma_bit_steps_nonzero(c: u32, k: nat)
    requires
        c != 0,
    ensures
        crc_bit_steps(c, k) != 0,
    decreases k,
{
    if k > 0 {
        assert(c != 0 ==> ((c >> 1) ^ (if c & 1 == 1 {
            0x82F6_3B78u32
        } else {
            0u32
        })) != 0) by (bit_vector);
        lemma_bit_steps_nonzero(crc_bit_step(c), (k - 1) as nat);
    }
}

/// Bit steps keep a zero register zero.
proof fn lemma_bit_steps_zero(k: nat)
    ensures
        crc_bit_steps(0, k) == 0,
    decreases k,
{
    if k > 0 {
        assert(((0u32 >> 1u32) ^ (if 0u32 & 1 == 1 {
            0x82F6_3B78u32
        } else {
            0u32
        })) == 0u32) by (bit_vector);
        lemma_bit_steps_zero((k - 1) as nat);
    }
}

proof fn lemma_even_step(c: u32)
    requires
        c & 1 == 0,
    ensures
        crc_bit_step(c) == c >> 1,
{
    assert(c & 1 == 0 ==> ((c >> 1) ^ (if c & 1 == 1 {
        0x82F6_3B78u32
    } else {
        0u32
    })) == c >> 1) by (bit_vector);
}

/// On a register whose low eight bits are zero, eight steps shift it right by eight.
proof fn lemma_bit_steps_shift(c: u32)
    requires
        c & 0xff == 0,
    ensures
        crc_bit_steps(c, 8) == c >> 8,
{
    let c1 = crc_bit_step(c);
    let c2 = crc_bit_step(c1);
    let c3 = crc_bit_step(c2);
    let c4 = crc_bit_step(c3);
    let c5 = crc_bit_step(c4);
    let c6 = crc_bit_step(c5);
    let c7 = crc_bit_step(c6);
    let c8 = crc_bit_step(c7);
    assert(c & 0xff == 0 ==> c & 1 == 0 && (c >> 1) & 0x7f == 0) by (bit_vector);
    lemma_even_step(c);
    assert(c1 & 0x7f == 0 ==> c1 & 1 == 0 && (c1 >> 1) & 0x3f == 0) by (bit_vector);
    lemma_even_step(c1);
    assert(c2 & 0x3f == 0 ==> c2 & 1 == 0 && (c2 >> 1) & 0x1f == 0) by (bit_vector);
    lemma_even_step(c2);
    assert(c3 & 0x1f == 0 ==> c3 & 1 == 0 && (c3 >> 1) & 0xf == 0) by (bit_vector);
    lemma_even_step(c3);
    assert(c4 & 0xf == 0 ==> c4 & 1 == 0 && (c4 >> 1) & 0x7 == 0) by (bit_vector);
    lemma_even_step(c4);
    assert(c5 & 0x7 == 0 ==> c5 & 1 == 0 && (c5 >> 1) & 0x3 == 0) by (bit_vector);
    lemma_even_step(c5);
    assert(c6 & 0x3 == 0 ==> c6 & 1 == 0 && (c6 >> 1) & 0x1 == 0) by (bit_vector);
    lemma_even_step(c6);
    assert(c7 & 0x1 == 0 ==> c7 & 1 == 0) by (bit_vector);
    lemma_even_step(c7);
    assert((((((((c >> 1) >> 1) >> 1) >> 1) >> 1) >> 1) >> 1) >> 1 == c >> 8) by (bit_vector);
    reveal_with_fuel(crc_bit_steps, 9);
    assert(crc_bit_steps(c, 8) == crc_bit_steps(c8, 0));
}

/// The table-driven byte update is eight bit steps of the register xor the byte.
proof fn lemma_update_is_bit_steps(sum: u32, b: u8)
    ensures
        crc_update(sum, b) == crc_bit_steps(sum ^ b as u32, 8),
{
    let x = sum ^ b as u32;
    let lo = x & 0xff;
    let hi = x & 0xffff_ff00;
    assert(x == lo ^ hi && hi & 0xff == 0) by (bit_vector)
        requires
            lo == x & 0xff,
            hi == x & 0xffff_ff00,
    ;
    assert(x % 256 == x & 0xff) by (bit_vector);
    assert(b <= 255 ==> (x & 0xffff_ff00) >> 8 == sum >> 8) by (bit_vector)
        requires
            x == sum ^ b as u32,
    ;
    lemma_bit_steps_linear(lo, hi, 8);
    lemma_bit_steps_shift(hi);
}

/// The register after feeding `e` into a zero register.
pub open spec fn crc_delta(e: Seq<u8>) -> u32
    decreases e.len(),
{
    if e.len() == 0 {
        0
    } else {
        crc_bit_steps(crc_delta(e.drop_last()) ^ e.last() as u32, 8)
    }
}

/// The byte-wise xor of two sequences of the same length.
pub open spec fn xor_bytes(a: Seq<u8>, b: Seq<u8>) -> Seq<u8> {
    Seq::new(a.len(), |i: int| a[i] ^ b[i])
}

/// The registers of two messages of the same length differ by the register of their xor.
proof fn lemma_crc_difference(a: Seq<u8>, b: Seq<u8>)
    requires
        a.len() == b.len(),
    ensures
        crc_state(a) ^ crc_state(b) == crc_delta(xor_bytes(a, b)),
    decreases a.len(),
{
    if a.len() == 0 {
        assert(0xffff_ffffu32 ^ 0xffff_ffffu32 == 0u32) by (bit_vector);
    } else {
        let a0 = a.drop_last();
        let b0 = b.drop_last();
        lemma_crc_difference(a0, b0);
        assert(xor_bytes(a, b).drop_last() =~= xor_bytes(a0, b0));
        let ca = crc_state(a0);
        let cb = crc_state(b0);
        let x = a.last();
        let y = b.last();
        lemma_update_is_bit_steps(ca, x);
        lemma_update_is_bit_steps(cb, y);
        lemma_bit_steps_linear(ca ^ x as u32, cb ^ y as u32, 8);
        assert((ca ^ x as u32) ^ (cb ^ y as u32) == (ca ^ cb) ^ ((x ^ y) as u32)) by (bit_vector);
    }
}

/// A sequence that is zero except for one nonzero byte leaves a nonzero register.
proof fn lemma_single_byte_delta(e: Seq<u8>, i: int)
    requires
        0 <= i < e.len(),
        e[i] != 0,
        forall|j: int| 0 <= j < e.len() && j != i ==> e[j] == 0,
    ensures
        crc_delta(e) != 0,
    decreases e.len(),
{
    let last = e.last();
    if e.len() - 1 == i {
        lemma_zero_delta(e.drop_last());
        assert(0u32 ^ last as u32 == last as u32) by (bit_vector);
        assert(last != 0 ==> last as u32 != 0) by (bit_vector);
        lemma_bit_steps_nonzero(last as u32, 8);
    } else {
        lemma_single_byte_delta(e.drop_last(), i);
        let d = crc_delta(e.drop_last());
        assert(last == 0);
        assert(d ^ 0u32 == d) by (bit_vector);
        lemma_bit_steps_nonzero(d, 8);
    }
}

proof fn lemma_zero_delta(e: Seq<u8>)
    requires
        forall|j: int| 0 <= j < e.len() ==> e[j] == 0,
    ensures
        crc_delta(e) == 0,
    decreases e.len(),
{
    if e.len() > 0 {
        lemma_zero_delta(e.drop_last());
        assert(0u32 ^ 0u32 == 0u32) by (bit_vector);
        lemma_bit_steps_zero(8);
    }
}

/// Two byte sequences of the same length that differ in exactly one byte have different
/// CRC32C values.
pub proof fn lemma_crc32c_detects_byte_change(a: Seq<u8>, b: Seq<u8>, i: int)
    requires
        a.len() == b.len(),
        0 <= i < a.len(),
        a[i] != b[i],
        forall|j: int| 0 <= j < a.len() && j != i ==> a[j] == b[j],
    ensures
        crc32c(a) != crc32c(b),
{
    lemma_crc_difference(a, b);
    let e = xor_bytes(a, b);
    assert forall|j: int| 0 <= j < e.len() && j != i implies e[j] == 0 by {
        let x = a[j];
        assert(x ^ x == 0u8) by (bit_vector);
    }
    let x = a[i];
    let y = b[i];
    assert(x != y ==> x ^ y != 0u8) by (bit_vector);
    lemma_single_byte_delta(e, i);
    let sa = crc_state(a);
    let sb = crc_state(b);
    assert(sa ^ sb != 0 ==> !sa != !sb) by (bit_vector);
}

/// Table-driven CRC32C calculator.
pub struct Crc32 {
    table: Vec<u32>,
}

impl Crc32 {
    /// The table holds the entry of every byte value.
    pub closed spec fn wf(&self) -> bool {
        &&& self.table@.len() == 256
        &&& forall|i: int| 0 <= i < 256 ==> #[trigger] self.table@[i] == crc_table_entry(i as u32)
    }

    /// Builds the 256-entry table.
    pub fn new() -> (r: Self)
        ensures
            r.wf(),
    {
        let mut table: Vec<u32> = Vec::with_capacity(256);
        let mut i: u32 = 0;
        while i < 256
            invariant
                i <= 256,
                table@.len() == i,
                forall|j: int| 0 <= j < i ==> #[trigger] table@[j] == crc_table_entry(j as u32),
            decreases 256 - i,
        {
            let mut c: u32 = i;
            let mut k: u32 = 0;
            while k < 8
                invariant
                    k <= 8,
                    crc_bit_steps(c, (8 - k) as nat) == crc_table_entry(i),
                decreases 8 - k,
            {
                c = (c >> 1) ^ if c & 1 == 1 {
                    CASTAGNOLI_REFLECTED
                } else {
                    0
                };
                k = k + 1;
            }
            table.push(c);
            i = i + 1;
        }
        Crc32 { table }
    }

    /// Computes the CRC32C of `data`.
    pub fn calculate(&mut self, data: &[u8]) -> (r: u32)
        requires
            old(self).wf(),
        ensures
            r == crc32c(data@),
            *final(self) == *old(self),
    {
        let mut sum: u32 = 0xffff_ffff;
        let mut i: usize = 0;
        while i < data.len()
            invariant
                self.wf(),
                i <= data@.len(),
                sum == crc_state(data@.take(i as int)),
            decreases data@.len() - i,
        {
            proof {
                assert(data@.take(i + 1).drop_last() =~= data@.take(i as int));
            }
            let index = (sum ^ data[i] as u32) % 256;
            sum = self.table[index as usize] ^ (sum >> 8);
            i = i + 1;
        }
        proof {
            assert(data@.take(i as int) =~= data@);
        }
        !sum
    }
}

} // verus!
