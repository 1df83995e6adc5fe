use crate::bytes::{le_nat, read_u32_le, read_u64_le};
use crate::error::{Error, Invalid};
use vstd::prelude::*;

verus! {

/// Length of the fixed file header.
pub const HEADER_SIZE: usize = 48;

/// The signature `ASTM-E57`.
pub open spec fn signature_bytes() -> Seq<u8> {
    seq![65u8, 83u8, 84u8, 77u8, 45u8, 69u8, 53u8, 55u8]
}

/// The little-endian integer at `at .. at + n` of `s`.
pub open spec fn field(s: Seq<u8>, at: int, n: int) -> nat {
    le_nat(s.subrange(at, at + n))
}

/// The error that reading a header from `s` gives, if any, in the order in which they are detected.
pub open spec fn header_error(s: Seq<u8>) -> Option<Error> {
    if s.len() < 48 {
        Some(Error::Read)
    } else if s.take(8) != signature_bytes() {
        Some(Error::Invalid(Invalid::Signature))
    } else if field(s, 8, 4) != 1 {
        Some(Error::Invalid(Invalid::MajorVersion))
    } else if field(s, 12, 4) != 0 {
        Some(Error::Invalid(Invalid::MinorVersion))
    } else if field(s, 40, 8) != 1024 {
        Some(Error::Invalid(Invalid::PageSize))
    } else {
        None
    }
}

/// Represents the file structure from the start of an E57 file.
#[derive(Clone, Debug)]
pub struct Header {
    /// File header signature that is always "ASTM-E57".
    pub signature: [u8; 8],
    /// Major version number of the E57 format of the file.
    pub major: u32,
    /// Minor version number of the E57 format of the file.
    pub minor: u32,
    /// Physical length of the E57 file on disk or in memory.
    pub phys_length: u64,
    /// Physical offset of the XML data inside the file.
    pub phys_xml_offset: u64,
    /// Logical (without checksum bytes) length of the XML data.
    pub xml_length: u64,
    /// Page size of the E57 file.
    pub page_size: u64,
}

impl Header {
    /// The header holds exactly the fields encoded in the first 48 bytes of `s`.
    pub open spec fn decoded_from(&self, s: Seq<u8>) -> bool {
        &&& s.len() >= 48
        &&& self.signature@ == s.take(8)
        &&& self.major == field(s, 8, 4)
        &&& self.minor == field(s, 12, 4)
        &&& self.phys_length == field(s, 16, 8)
        &&& self.phys_xml_offset == field(s, 24, 8)
        &&& self.xml_length == field(s, 32, 8)
        &&& self.page_size == field(s, 40, 8)
    }

    /// Reads and validates the header at the start of `data`.
    pub fn read(data: &[u8]) -> (r: Result<Self, Error>)
        ensures
            match r {
                Ok(h) => header_error(data@) is None && h.decoded_from(data@) && h.major == 1
                    && h.minor == 0 && h.page_size == 1024,
                Err(e) => header_error(data@) == Some(e),
            },
    {
        if data.len() < HEADER_SIZE {
            return Err(Error::Read);
        }
        let signature: [u8; 8] = [
            data[0],
            data[1],
            data[2],
            data[3],
            data[4],
            data[5],
            data[6],
            data[7],
        ];
        let header = Header {
            signature,
            major: read_u32_le(data, 8),
            minor: read_u32_le(data, 12),
            phys_length: read_u64_le(data, 16),
            phys_xml_offset: read_u64_le(data, 24),
            xml_length: read_u64_le(data, 32),
            page_size: read_u64_le(data, 40),
        };
        proof {
            assert(signature@ =~= data@.take(8));
        }
        let sig_ok = signature[0] == 65 && signature[1] == 83 && signature[2] == 84 && signature[3]
            == 77 && signature[4] == 45 && signature[5] == 69 && signature[6] == 53
            && signature[7] == 55;
        if !sig_ok {
            proof {
                if data@.take(8) == signature_bytes() {
                    assert(data@.take(8)[0] == 65u8);
                    assert(data@.take(8)[7] == 55u8);
                    assert(false);
                }
            }
            return Err(Error::Invalid(Invalid::Signature));
        }
        proof {
            assert(data@.take(8) =~= signature_bytes());
        }
        if header.major != 1 {
            return Err(Error::Invalid(Invalid::MajorVersion));
        }
        if header.minor != 0 {
            return Err(Error::Invalid(Invalid::MinorVersion));
        }
        if header.page_size != 1024 {
            return Err(Error::Invalid(Invalid::PageSize));
        }
        Ok(header)
    }
}

} // verus!
