use vstd::prelude::*;

verus! {

/// Format violations found while decoding.
#[derive(Debug, Clone, Copy, PartialEq, Eq, Structural)]
pub enum Invalid {
    /// The file does not start with `ASTM-E57`.
    Signature,
    /// The major version is not 1.
    MajorVersion,
    /// The minor version is not 0.
    MinorVersion,
    /// The page size in the header is not 1024.
    PageSize,
    /// The physical size is zero or not a multiple of the page size.
    FileSize,
    /// A physical offset points into a page checksum or past the end.
    Offset,
    /// A compressed vector section does not start with id 1.
    SectionId,
    /// A compressed vector section length is not a multiple of four.
    SectionLength,
    /// A blob section does not start with id 0.
    BlobSectionId,
    /// A packet starts with an unknown packet type.
    PacketType(u8),
    /// A data packet announces another number of byte streams than the prototype has fields.
    BytestreamCount,
    /// The slices of a data packet do not fit into the packet.
    PacketLength,
    /// An integer field declares a maximum that is not above its minimum.
    IntegerBounds,
    /// A decoded integer lies above the declared maximum of its field.
    ValueOutOfRange,
    /// The checksum of the page with this index does not match its payload.
    Checksum(u64),
}

/// Valid content that this reader does not decode.
#[derive(Debug, Clone, Copy, PartialEq, Eq, Structural)]
pub enum Unimplemented {
    /// An index packet stands where a data packet was expected.
    IndexPacket,
    /// An ignored packet stands where a data packet was expected.
    IgnoredPacket,
    /// An integer field needs this many bits (57 to 63).
    IntegerBits(u32),
    /// A prototype element has a name outside the known set.
    RecordName,
}

/// Errors of the decoder.
#[derive(Debug, Clone, Copy, PartialEq, Eq, Structural)]
pub enum Error {
    /// A logical span reaches past the end of the data.
    Read,
    /// The content does not conform to the format.
    Invalid(Invalid),
    /// The content uses a feature that is not decoded.
    Unimplemented(Unimplemented),
}

} // verus!
