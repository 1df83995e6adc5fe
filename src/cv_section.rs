use crate::bytes::{le_nat, read_u16_le, read_u64_le};
use crate::error::{Error, Invalid, Unimplemented};
use crate::header::field;
use crate::paged::{logical_len, logical_span, PagedReader};
use vstd::prelude::*;

verus! {

/// Size of a compressed vector section header.
pub const CV_HEADER_SIZE: usize = 32;

/// Size of the fixed part of a data packet header.
pub const PACKET_HEADER_SIZE: usize = 6;

/// The error that decoding a compressed vector section header from `s` gives, if any.
pub open spec fn cv_header_error(s: Seq<u8>) -> Option<Error> {
    if s.len() < 32 {
        Some(Error::Read)
    } else if s[0] != 1 {
        Some(Error::Invalid(Invalid::SectionId))
    } else if field(s, 8, 8) % 4 != 0 {
        Some(Error::Invalid(Invalid::SectionLength))
    } else {
        None
    }
}

/// Header of a compressed vector section.
#[derive(Clone, Copy, Debug, PartialEq, Eq, Structural)]
pub struct CompressedVectorSectionHeader {
    pub section_id: u8,
    pub section_length: u64,
    pub data_offset: u64,
    pub index_offset: u64,
}

impl CompressedVectorSectionHeader {
    /// The header holds the fields encoded in the first 32 bytes of `s`.
    pub open spec fn decoded_from(&self, s: Seq<u8>) -> bool {
        &&& s.len() >= 32
        &&& self.section_length == field(s, 8, 8)
        &&& self.data_offset == field(s, 16, 8)
        &&& self.index_offset == field(s, 24, 8)
    }

    /// Decodes and validates a section header from its 32 bytes.
    pub fn from_bytes(b: &[u8]) -> (r: Result<Self, Error>)
        ensures
            match r {
                Ok(h) => cv_header_error(b@) is None && h.decoded_from(b@),
                Err(e) => cv_header_error(b@) == Some(e),
            },
    {
        if b.len() < CV_HEADER_SIZE {
            return Err(Error::Read);
        }
        let header = CompressedVectorSectionHeader {
            section_id: b[0],
            section_length: read_u64_le(b, 8),
            data_offset: read_u64_le(b, 16),
            index_offset: read_u64_le(b, 24),
        };
        if header.section_id != 1 {
            return Err(Error::Invalid(Invalid::SectionId));
        }
        if header.section_length % 4 != 0 {
            return Err(Error::Invalid(Invalid::SectionLength));
        }
        Ok(header)
    }

    /// Reads and validates the section header at the reader's position.
    pub fn read(reader: &mut PagedReader) -> (r: Result<Self, Error>)
        ensures
            final(reader).data() == old(reader).data(),
            ({
                let n = old(reader).data().len();
                let p = old(reader).position();
                let s = logical_span(old(reader).data(), p, 32);
                match r {
                    Ok(h) => p + 32 <= logical_len(n) && cv_header_error(s) is None
                        && h.decoded_from(s) && final(reader).position() == p + 32,
                    Err(e) => (p + 32 > logical_len(n) && e == Error::Read) || (p + 32 <= logical_len(
                        n,
                    ) && cv_header_error(s) == Some(e)),
                }
            }),
    {
        let buffer = reader.read_exact(CV_HEADER_SIZE)?;
        Self::from_bytes(buffer.as_slice())
    }
}

/// Header of a blob section.
#[derive(Clone, Copy, Debug, PartialEq, Eq, Structural)]
pub struct BlobSectionHeader {
    pub section_id: u8,
    pub section_length: u64,
}

impl BlobSectionHeader {
    /// Decodes a blob section header from its 16 bytes.
    pub fn from_array(buffer: &[u8]) -> (r: Result<Self, Error>)
        ensures
            buffer@.len() < 16 ==> r == Err::<Self, Error>(Error::Read),
            buffer@.len() >= 16 && buffer@[0] != 0 ==> r == Err::<Self, Error>(
                Error::Invalid(Invalid::BlobSectionId),
            ),
            buffer@.len() >= 16 && buffer@[0] == 0 ==> (r matches Ok(h) && h.section_length
                == field(buffer@, 8, 8)),
    {
        if buffer.len() < 16 {
            return Err(Error::Read);
        }
        if buffer[0] != 0 {
            return Err(Error::Invalid(Invalid::BlobSectionId));
        }
        Ok(BlobSectionHeader { section_id: buffer[0], section_length: read_u64_le(buffer, 8) })
    }

    /// Reads a blob section header at the reader's position.
    pub fn from_reader(reader: &mut PagedReader) -> (r: Result<Self, Error>)
        ensures
            final(reader).data() == old(reader).data(),
            ({
                let n = old(reader).data().len();
                let p = old(reader).position();
                let s = logical_span(old(reader).data(), p, 16);
                match r {
                    Ok(h) => p + 16 <= logical_len(n) && s[0] == 0 && h.section_length == field(
                        s,
                        8,
                        8,
                    ) && final(reader).position() == p + 16,
                    Err(e) => (p + 16 > logical_len(n) && e == Error::Read) || (p + 16
                        <= logical_len(n) && s[0] != 0 && e == Error::Invalid(
                        Invalid::BlobSectionId,
                    )),
                }
            }),
    {
        let buffer = reader.read_exact(16)?;
        Self::from_array(buffer.as_slice())
    }
}

/// The error that the six fixed bytes `h` of a packet header give for a prototype of
/// `fields` fields, if any.
pub open spec fn packet_header_error(h: Seq<u8>, fields: nat) -> Option<Error> {
    if h.len() < 6 {
        Some(Error::Read)
    } else if h[0] == 0 {
        Some(Error::Unimplemented(Unimplemented::IndexPacket))
    } else if h[0] == 2 {
        Some(Error::Unimplemented(Unimplemented::IgnoredPacket))
    } else if h[0] != 1 {
        Some(Error::Invalid(Invalid::PacketType(h[0])))
    } else if field(h, 4, 2) != fields {
        Some(Error::Invalid(Invalid::BytestreamCount))
    } else {
        None
    }
}

/// The fixed part of a data packet header.
#[derive(Clone, Copy, Debug, PartialEq, Eq, Structural)]
pub struct DataPacketHeader {
    /// Whether the compressor restarts with this packet.
    pub comp_restart: bool,
    /// Length of the whole packet in bytes.
    pub packet_length: u32,
    /// Number of byte streams in the packet.
    pub bytestream_count: u16,
}

impl DataPacketHeader {
    /// Decodes the six fixed bytes of a packet header and checks that it is a data packet
    /// with one byte stream per prototype field.
    pub fn from_bytes(h: &[u8], fields: usize) -> (r: Result<Self, Error>)
        ensures
            match r {
                Ok(d) => packet_header_error(h@, fields as nat) is None && d.packet_length == field(
                    h@,
                    2,
                    2,
                ) + 1 && d.bytestream_count == fields && d.comp_restart == (h@[1] % 2 == 1),
                Err(e) => packet_header_error(h@, fields as nat) == Some(e),
            },
    {
        if h.len() < PACKET_HEADER_SIZE {
            return Err(Error::Read);
        }
        if h[0] == 0 {
            return Err(Error::Unimplemented(Unimplemented::IndexPacket));
        }
        if h[0] == 2 {
            return Err(Error::Unimplemented(Unimplemented::IgnoredPacket));
        }
        if h[0] != 1 {
            return Err(Error::Invalid(Invalid::PacketType(h[0])));
        }
        let packet_length = read_u16_le(h, 2) as u32 + 1;
        let bytestream_count = read_u16_le(h, 4);
        if bytestream_count as usize != fields {
            return Err(Error::Invalid(Invalid::BytestreamCount));
        }
        Ok(DataPacketHeader { comp_restart: h[1] % 2 == 1, packet_length, bytestream_count })
    }
}

} // verus!
