//! A reader for the ASTM E57 3D imaging file format: paged storage with per-page CRC32C,
//! compressed vector sections and bit-packed point records.
use vstd::prelude::*;

pub mod bitpack;
pub mod bs_read;
pub mod bytes;
pub mod converter;
pub mod crc32;
pub mod cv_section;
pub mod e57;
pub mod error;
pub mod header;
pub mod loader;
pub mod paged;
pub mod pc_reader;
pub mod record;

pub use bs_read::ByteStreamReadBuffer;
pub use crc32::Crc32;
pub use cv_section::{BlobSectionHeader, CompressedVectorSectionHeader, DataPacketHeader};
pub use e57::E57;
pub use error::{Error, Invalid, Unimplemented};
pub use header::Header;
pub use paged::{logic_to_phys, phys_to_logic, read_logical, PagedReader};
pub use loader::{F32Loader, F64Loader, FieldLoader, IntLoader};
pub use pc_reader::PointCloudReader;
pub use record::{Blob, IndexBounds, PointCloud, Record, RecordDataType, RecordName, RecordValue, Root};

verus! {

} // verus!
