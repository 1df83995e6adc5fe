use crate::crc32::{crc32c, Crc32};
use crate::error::{Error, Invalid};
use crate::header::{field, header_error, Header};
use crate::paged::{logic_of, logical_len, logical_span, PagedReader};
use crate::pc_reader::{fresh_reader, setup_error, PointCloudReader};
use crate::record::PointCloud;
use vstd::prelude::*;

verus! {

/// The big-endian integer of four bytes.
pub open spec fn be_u32(s: Seq<u8>) -> nat {
    s[0] as nat * 0x100_0000 + s[1] as nat * 0x1_0000 + s[2] as nat * 0x100 + s[3] as nat
}

/// The payload of page `k`.
pub open spec fn page_payload(d: Seq<u8>, k: nat) -> Seq<u8> {
    d.subrange((1024 * k) as int, (1024 * k + 1020) as int)
}

/// The checksum stored at the end of page `k`.
pub open spec fn page_checksum(d: Seq<u8>, k: nat) -> nat {
    be_u32(d.subrange((1024 * k + 1020) as int, (1024 * k + 1024) as int))
}

/// Page `k` holds the checksum of its payload.
pub open spec fn page_valid(d: Seq<u8>, k: nat) -> bool {
    crc32c(page_payload(d, k)) == page_checksum(d, k)
}

/// Changing one payload byte of page `k` of a file whose pages all hold valid checksums
/// makes page `k` invalid and leaves every other page valid, so that checksum validation
/// fails exactly at page `k`.
pub proof fn lemma_changed_payload_byte_fails_at_its_page(d: Seq<u8>, k: nat, i: nat, x: u8)
    requires
        k < d.len() / 1024,
        i < 1020,
        x != d[(1024 * k + i) as int],
        forall|j: nat| j < d.len() / 1024 ==> #[trigger] page_valid(d, j),
    ensures
        !page_valid(d.update((1024 * k + i) as int, x), k),
        forall|j: nat|
            j < d.len() / 1024 && j != k ==> #[trigger] page_valid(d.update((1024 * k + i) as int, x), j),
{
    let d2 = d.update((1024 * k + i) as int, x);
    assert(1024 * k + 1024 <= d.len()) by (nonlinear_arith)
        requires
            k < d.len() / 1024,
    ;
    assert(page_checksum(d2, k) == page_checksum(d, k)) by {
        assert(d2.subrange((1024 * k + 1020) as int, (1024 * k + 1024) as int) =~= d.subrange(
            (1024 * k + 1020) as int,
            (1024 * k + 1024) as int,
        ));
    }
    assert(page_valid(d, k));
    crate::crc32::lemma_crc32c_detects_byte_change(page_payload(d, k), page_payload(d2, k), i as int);
    assert forall|j: nat| j < d.len() / 1024 && j != k implies #[trigger] page_valid(d2, j) by {
        assert(1024 * j + 1024 <= d.len()) by (nonlinear_arith)
            requires
                j < d.len() / 1024,
        ;
        assert(j < k || j > k);
        assert(page_payload(d2, j) =~= page_payload(d, j));
        assert(d2.subrange((1024 * j + 1020) as int, (1024 * j + 1024) as int) =~= d.subrange(
            (1024 * j + 1020) as int,
            (1024 * j + 1024) as int,
        ));
        assert(page_valid(d, j));
    }
}

/// The error that opening the file with physical bytes `d` gives, if any, in the order in
/// which they are detected.
pub open spec fn open_error(d: Seq<u8>) -> Option<Error> {
    let xml_offset = field(d, 24, 8);
    let xml_length = field(d, 32, 8);
    if header_error(d) is Some {
        header_error(d)
    } else if d.len() == 0 || d.len() % 1024 != 0 {
        Some(Error::Invalid(Invalid::FileSize))
    } else if !(xml_offset < d.len() && xml_offset % 1024 < 1020) {
        Some(Error::Invalid(Invalid::Offset))
    } else if xml_length > usize::MAX || logic_of(xml_offset) + xml_length > logical_len(d.len()) {
        Some(Error::Read)
    } else {
        None
    }
}

/// An E57 file: its validated header and XML section, over its physical bytes.
pub struct E57<'a> {
    data: &'a [u8],
    header: Header,
    xml: Vec<u8>,
}

impl<'a> E57<'a> {
    pub closed spec fn data(&self) -> Seq<u8> {
        self.data@
    }

    pub closed spec fn header_spec(&self) -> Header {
        self.header
    }

    pub closed spec fn xml_spec(&self) -> Seq<u8> {
        self.xml@
    }

    /// Reads the header and the XML section of the file whose physical bytes are `data`.
    pub fn new(data: &'a [u8]) -> (r: Result<Self, Error>)
        ensures
            match r {
                Ok(f) => {
                    &&& open_error(data@) is None
                    &&& f.data() == data@
                    &&& header_error(data@) is None
                    &&& f.header_spec().decoded_from(data@)
                    &&& data@.len() > 0 && data@.len() % 1024 == 0
                    &&& f.header_spec().phys_xml_offset % 1024 < 1020
                    &&& f.xml_spec() == logical_span(
                        data@,
                        logic_of(f.header_spec().phys_xml_offset as nat),
                        f.header_spec().xml_length as nat,
                    )
                },
                Err(e) => open_error(data@) == Some(e),
            },
    {
        let header = Header::read(data)?;
        let mut reader = PagedReader::new(data)?;
        reader.seek_physical(header.phys_xml_offset)?;
        if header.xml_length > usize::MAX as u64 {
            return Err(Error::Read);
        }
        let xml = reader.read_exact(header.xml_length as usize)?;
        Ok(E57 { data, header, xml })
    }

    /// Returns the file header.
    pub fn get_header(&self) -> (r: Header)
        ensures
            r == self.header_spec(),
    {
        Header { signature: self.header.signature, ..self.header }
    }

    /// Returns the raw XML section.
    pub fn get_xml(&self) -> (r: Vec<u8>)
        ensures
            r@ == self.xml_spec(),
    {
        let mut out: Vec<u8> = Vec::with_capacity(self.xml.len());
        let mut i: usize = 0;
        while i < self.xml.len()
            invariant
                i <= self.xml@.len(),
                out@ == self.xml@.take(i as int),
            decreases self.xml@.len() - i,
        {
            proof {
                assert(self.xml@.take(i + 1) =~= self.xml@.take(i as int).push(self.xml@[i as int]));
            }
            out.push(self.xml[i]);
            i = i + 1;
        }
        proof {
            assert(self.xml@.take(i as int) =~= self.xml@);
        }
        out
    }

    /// Checks the checksum of every page and reports the first page whose checksum does
    /// not match its payload.
    pub fn validate_crc(&self) -> (r: Result<(), Error>)
        ensures
            match r {
                Ok(_) => forall|k: nat| k < self.data().len() / 1024 ==> #[trigger] page_valid(self.data(), k),
                Err(e) => exists|k: nat|
                    k < self.data().len() / 1024 && e == Error::Invalid(Invalid::Checksum(k as u64))
                        && !page_valid(self.data(), k) && forall|j: nat|
                        j < k ==> #[trigger] page_valid(self.data(), j),
            },
    {
        let len = self.data.len();
        let pages = len / 1024;
        let mut crc = Crc32::new();
        let mut k: usize = 0;
        while k < pages
            invariant
                k <= pages,
                pages == self.data@.len() / 1024,
                len == self.data@.len(),
                crc.wf(),
                forall|j: nat| j < k ==> #[trigger] page_valid(self.data@, j),
            decreases pages - k,
        {
            assert(k * 1024 + 1024 <= len) by (nonlinear_arith)
                requires
                    k < pages,
                    pages == len / 1024,
            ;
            let start = k * 1024;
            let payload = &self.data[start..start + 1020];
            let sum = crc.calculate(payload);
            let stored = (self.data[start + 1020] as u32) * 0x100_0000 + (self.data[start + 1021]
                as u32) * 0x1_0000 + (self.data[start + 1022] as u32) * 0x100
                + self.data[start + 1023] as u32;
            proof {
                assert(payload@ =~= page_payload(self.data@, k as nat));
                assert(self.data@.subrange(start + 1020, start + 1024)[0] == self.data@[start + 1020]);
                assert(self.data@.subrange(start + 1020, start + 1024)[1] == self.data@[start + 1021]);
                assert(self.data@.subrange(start + 1020, start + 1024)[2] == self.data@[start + 1022]);
                assert(self.data@.subrange(start + 1020, start + 1024)[3] == self.data@[start + 1023]);
                assert(stored == page_checksum(self.data@, k as nat));
            }
            if sum != stored {
                proof {
                    let kk = k as nat;
                    assert(!page_valid(self.data(), kk));
                    assert(forall|j: nat| j < kk ==> #[trigger] page_valid(self.data(), j));
                    assert(kk < self.data().len() / 1024);
                    assert(kk as u64 == k as u64);
                }
                return Err(Error::Invalid(Invalid::Checksum(k as u64)));
            }
            k = k + 1;
        }
        Ok(())
    }

    /// Sets up the decoding of the point cloud `pc` of this file.
    pub fn pointcloud(&self, pc: &PointCloud) -> (r: Result<PointCloudReader<'a>, Error>)
        ensures
            match r {
                Ok(rd) => setup_error(pc.file_offset, pc.prototype@, self.data()) is None && rd.wf()
                    && fresh_reader(rd, self.data(), *pc),
                Err(e) => setup_error(pc.file_offset, pc.prototype@, self.data()) == Some(e),
            },
    {
        PointCloudReader::new(pc, self.data)
    }
}

} // verus!
