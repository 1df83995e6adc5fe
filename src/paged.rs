use crate::error::{Error, Invalid};
use vstd::arithmetic::div_mod::{lemma_fundamental_div_mod, lemma_fundamental_div_mod_converse};
use vstd::prelude::*;

verus! {

/// Size of one physical page.
pub const PAGE_SIZE: u64 = 1024;

/// Bytes of payload in front of each page's checksum.
pub const PAGE_PAYLOAD: u64 = 1020;

/// The physical offset of a logical offset: each full page of payload
/// before it adds the four checksum bytes of that page.
pub open spec fn phys_of(l: nat) -> nat {
    l + (l / 1020) * 4
}

/// The logical offset of a physical offset that lies in a page's payload.
pub open spec fn logic_of(p: nat) -> nat {
    (p - (p / 1024) * 4) as nat
}

/// Number of payload bytes in `n` physical bytes.
pub open spec fn logical_len(n: nat) -> nat {
    (n / 1024) * 1020 + if n % 1024 < 1020 {
        n % 1024
    } else {
        1020
    }
}

/// The bytes at logical offsets `start .. start + len` of the physical bytes `d`.
pub open spec fn logical_span(d: Seq<u8>, start: nat, len: nat) -> Seq<u8> {
    Seq::new(len, |i: int| d[phys_of((start + i) as nat) as int])
}

/// Physical offset and in-page position of a logical offset.
pub proof fn lemma_phys_of(l: nat)
    ensures
        phys_of(l) == 1024 * (l / 1020) + l % 1020,
        phys_of(l) / 1024 == l / 1020,
        phys_of(l) % 1024 == l % 1020,
{
    lemma_fundamental_div_mod(l as int, 1020);
    let q = l / 1020;
    let r = l % 1020;
    assert(phys_of(l) == 1024 * q + r);
    lemma_fundamental_div_mod_converse(phys_of(l) as int, 1024, q as int, r as int);
}

/// Mapping a logical offset to its physical offset and back gives the same offset, and the
/// physical offset never falls into a page's checksum.
pub proof fn lemma_logical_round_trip(l: nat)
    ensures
        logic_of(phys_of(l)) == l,
        phys_of(l) % 1024 < 1020,
{
    lemma_phys_of(l);
    lemma_fundamental_div_mod(l as int, 1020);
}

/// A logical offset inside the payload of `n` physical bytes maps inside those bytes.
pub proof fn lemma_phys_in_bounds(l: nat, n: nat)
    requires
        l < logical_len(n),
    ensures
        phys_of(l) < n,
{
    lemma_phys_of(l);
    lemma_fundamental_div_mod(l as int, 1020);
    lemma_fundamental_div_mod(n as int, 1024);
    let q = l / 1020;
    let r = l % 1020;
    let bq = n / 1024;
    let br = n % 1024;
    assert(phys_of(l) < n) by (nonlinear_arith)
        requires
            l == 1020 * q + r,
            0 <= r < 1020,
            n == 1024 * bq + br,
            0 <= br < 1024,
            l < bq * 1020 + (if br < 1020 {
                br
            } else {
                1020
            }),
            phys_of(l) == 1024 * q + r,
    ;
}

/// Maps a logical offset to its physical offset.
pub fn logic_to_phys(pos: u64) -> (r: u64)
    requires
        pos <= u64::MAX / 2,
    ensures
        r == phys_of(pos as nat),
        logic_of(r as nat) == pos,
        r % 1024 < 1020,
        r / 1024 == pos / 1020,
{
    proof {
        lemma_logical_round_trip(pos as nat);
        lemma_phys_of(pos as nat);
    }
    pos + (pos / 1020) * 4
}

/// Maps a physical offset to the logical offset of the same byte.
pub fn phys_to_logic(pos: u64) -> (r: u64)
    ensures
        r == logic_of(pos as nat),
{
    pos - (pos / 1024) * 4
}

/// Payload bytes in `n` physical bytes.
pub fn payload_len(n: usize) -> (r: usize)
    ensures
        r == logical_len(n as nat),
{
    let rest = n % 1024;
    (n / 1024) * 1020 + if rest < 1020 {
        rest
    } else {
        1020
    }
}

/// Copies `len` bytes starting at logical offset `start` out of the physical bytes `data`,
/// skipping the checksum at the end of each page.
pub fn read_logical(data: &[u8], start: u64, len: usize) -> (r: Result<Vec<u8>, Error>)
    ensures
        match r {
            Ok(v) => start + len <= logical_len(data@.len()) && v@ == logical_span(
                data@,
                start as nat,
                len as nat,
            ),
            Err(e) => e == Error::Read && start + len > logical_len(data@.len()),
        },
{
    let n = data.len();
    let total = payload_len(n);
    if start > total as u64 || len > total - start as usize {
        return Err(Error::Read);
    }
    let start = start as usize;
    let end = start + len;
    let mut out: Vec<u8> = Vec::with_capacity(len);
    let mut l: usize = start;
    let mut r: usize = start % 1020;
    let mut p: u128 = start as u128 + (start as u128 / 1020) * 4;
    while l < end
        invariant
            start <= l <= end,
            end == start + len,
            end <= logical_len(n as nat),
            n == data@.len(),
            r == l % 1020,
            p == phys_of(l as nat),
            out@ == logical_span(data@, start as nat, (l - start) as nat),
        decreases end - l,
    {
        proof {
            lemma_phys_in_bounds(l as nat, n as nat);
            lemma_fundamental_div_mod(l as int, 1020);
        }
        out.push(data[p as usize]);
        proof {
            let q = l as int / 1020;
            if r + 1 < 1020 {
                lemma_fundamental_div_mod_converse(l + 1, 1020, q, r + 1);
            } else {
                lemma_fundamental_div_mod_converse(l + 1, 1020, q + 1, 0);
            }
            assert(out@ =~= logical_span(data@, start as nat, (l + 1 - start) as nat));
        }
        l = l + 1;
        if r + 1 == 1020 {
            r = 0;
            p = p + 5;
        } else {
            r = r + 1;
            p = p + 1;
        }
    }
    Ok(out)
}

/// A cursor over the logical byte stream of a paged file.
pub struct PagedReader<'a> {
    data: &'a [u8],
    position: u64,
}

impl<'a> PagedReader<'a> {
    /// The physical bytes.
    pub closed spec fn data(&self) -> Seq<u8> {
        self.data@
    }

    /// The logical offset of the next byte to read.
    pub closed spec fn position(&self) -> nat {
        self.position as nat
    }

    /// Creates a reader over whole pages of physical bytes.
    pub fn new(data: &'a [u8]) -> (r: Result<Self, Error>)
        ensures
            match r {
                Ok(p) => p.data() == data@ && p.position() == 0,
                Err(e) => e == Error::Invalid(Invalid::FileSize),
            },
            r is Ok <==> (data@.len() > 0 && data@.len() % 1024 == 0),
    {
        if data.len() == 0 || data.len() % 1024 != 0 {
            return Err(Error::Invalid(Invalid::FileSize));
        }
        Ok(PagedReader { data, position: 0 })
    }

    /// Moves to the byte at a physical offset, which must lie in the payload of a page.
    pub fn seek_physical(&mut self, offset: u64) -> (r: Result<(), Error>)
        ensures
            final(self).data() == old(self).data(),
            r is Ok <==> (offset < old(self).data().len() && offset % 1024 < 1020),
            r is Ok ==> final(self).position() == logic_of(offset as nat),
            r is Err ==> r == Err::<(), Error>(Error::Invalid(Invalid::Offset)) && final(self).position()
                == old(self).position(),
    {
        if offset >= self.data.len() as u64 || offset % 1024 >= 1020 {
            return Err(Error::Invalid(Invalid::Offset));
        }
        self.position = phys_to_logic(offset);
        Ok(())
    }

    /// The logical offset of the next byte to read.
    pub fn position_u64(&self) -> (r: u64)
        ensures
            r == self.position(),
    {
        self.position
    }

    /// Moves forward to the next offset that is a multiple of four.
    pub fn align(&mut self)
        requires
            old(self).position() <= u64::MAX - 3,
        ensures
            final(self).data() == old(self).data(),
            final(self).position() == (old(self).position() + 3) / 4 * 4,
    {
        self.position = (self.position + 3) / 4 * 4;
    }

    /// Moves forward by `length` logical bytes.
    pub fn skip(&mut self, length: u64)
        requires
            old(self).position() + length <= u64::MAX,
        ensures
            final(self).data() == old(self).data(),
            final(self).position() == old(self).position() + length,
    {
        self.position = self.position + length;
    }

    /// Reads the next `len` logical bytes.
    pub fn read_exact(&mut self, len: usize) -> (r: Result<Vec<u8>, Error>)
        ensures
            final(self).data() == old(self).data(),
            match r {
                Ok(v) => old(self).position() + len <= logical_len(old(self).data().len())
                    && v@ == logical_span(old(self).data(), old(self).position(), len as nat)
                    && final(self).position() == old(self).position() + len,
                Err(e) => e == Error::Read && old(self).position() + len > logical_len(
                    old(self).data().len(),
                ) && final(self).position() == old(self).position(),
            },
    {
        let v = read_logical(self.data, self.position, len)?;
        let n = self.data.len();
        assert(logical_len(n as nat) <= n);
        self.position = self.position + len as u64;
        Ok(v)
    }
}

} // verus!
