use crate::error::{Error, Unimplemented};
use vstd::prelude::*;
use vstd::string::StrSliceExecFns;

verus! {

/// Used to describe the prototype records with all attributes that exist in the point cloud.
#[derive(Clone, Copy, Debug, PartialEq, Eq, Hash, Structural)]
pub enum RecordName {
    /// Cartesian X coordinate (in meters).
    CartesianX,
    /// Cartesian Y coordinate (in meters).
    CartesianY,
    /// Cartesian Z coordinate (in meters).
    CartesianZ,
    /// Whether the Cartesian coordinate or its magnitude is meaningful.
    CartesianInvalidState,
    /// Non-negative range (in meters) of the spherical coordinate.
    SphericalRange,
    /// Azimuth angle (in radians) of the spherical coordinate.
    SphericalAzimuth,
    /// Elevation angle (in radians) of the spherical coordinate.
    SphericalElevation,
    /// Whether the spherical coordinate or its range is meaningful.
    SphericalInvalidState,
    /// Point intensity.
    Intensity,
    /// Whether the intensity value is meaningful.
    IsIntensityInvalid,
    /// Red color value.
    ColorRed,
    /// Green color value.
    ColorGreen,
    /// Blue color value.
    ColorBlue,
    /// Whether the color value is meaningful.
    IsColorInvalid,
    /// Row number of the point (zero-based).
    RowIndex,
    /// Column number of the point (zero-based).
    ColumnIndex,
    /// Total number of returns for the pulse of this point.
    ReturnCount,
    /// Number of this return (zero-based).
    ReturnIndex,
    /// Non-negative time (in seconds) since the acquisition start.
    TimeStamp,
    /// Whether the time stamp value is meaningful.
    IsTimeStampInvalid,
}

/// The XML tag of each record name.
pub open spec fn tag_of(n: RecordName) -> Seq<char> {
    match n {
        RecordName::CartesianX => "cartesianX"@,
        RecordName::CartesianY => "cartesianY"@,
        RecordName::CartesianZ => "cartesianZ"@,
        RecordName::CartesianInvalidState => "cartesianInvalidState"@,
        RecordName::SphericalRange => "sphericalRange"@,
        RecordName::SphericalAzimuth => "sphericalAzimuth"@,
        RecordName::SphericalElevation => "sphericalElevation"@,
        RecordName::SphericalInvalidState => "sphericalInvalidState"@,
        RecordName::Intensity => "intensity"@,
        RecordName::IsIntensityInvalid => "isIntensityInvalid"@,
        RecordName::ColorRed => "colorRed"@,
        RecordName::ColorGreen => "colorGreen"@,
        RecordName::ColorBlue => "colorBlue"@,
        RecordName::IsColorInvalid => "isColorInvalid"@,
        RecordName::RowIndex => "rowIndex"@,
        RecordName::ColumnIndex => "columnIndex"@,
        RecordName::ReturnCount => "returnCount"@,
        RecordName::ReturnIndex => "returnIndex"@,
        RecordName::TimeStamp => "timeStamp"@,
        RecordName::IsTimeStampInvalid => "isTimeStampInvalid"@,
    }
}

/// The record name whose tag is `s`, if any.
pub open spec fn name_of_tag(s: Seq<char>) -> Option<RecordName> {
    if s == "cartesianX"@ {
        Some(RecordName::CartesianX)
    } else
    if s == "cartesianY"@ {
        Some(RecordName::CartesianY)
    } else
    if s == "cartesianZ"@ {
        Some(RecordName::CartesianZ)
    } else
    if s == "cartesianInvalidState"@ {
        Some(RecordName::CartesianInvalidState)
    } else
    if s == "sphericalRange"@ {
        Some(RecordName::SphericalRange)
    } else
    if s == "sphericalAzimuth"@ {
        Some(RecordName::SphericalAzimuth)
    } else
    if s == "sphericalElevation"@ {
        Some(RecordName::SphericalElevation)
    } else
    if s == "sphericalInvalidState"@ {
        Some(RecordName::SphericalInvalidState)
    } else
    if s == "intensity"@ {
        Some(RecordName::Intensity)
    } else
    if s == "isIntensityInvalid"@ {
        Some(RecordName::IsIntensityInvalid)
    } else
    if s == "colorRed"@ {
        Some(RecordName::ColorRed)
    } else
    if s == "colorGreen"@ {
        Some(RecordName::ColorGreen)
    } else
    if s == "colorBlue"@ {
        Some(RecordName::ColorBlue)
    } else
    if s == "isColorInvalid"@ {
        Some(RecordName::IsColorInvalid)
    } else
    if s == "rowIndex"@ {
        Some(RecordName::RowIndex)
    } else
    if s == "columnIndex"@ {
        Some(RecordName::ColumnIndex)
    } else
    if s == "returnCount"@ {
        Some(RecordName::ReturnCount)
    } else
    if s == "returnIndex"@ {
        Some(RecordName::ReturnIndex)
    } else
    if s == "timeStamp"@ {
        Some(RecordName::TimeStamp)
    } else
    if s == "isTimeStampInvalid"@ {
        Some(RecordName::IsTimeStampInvalid)
    } else {
        None
    }
}

/// Compares two strings character by character.
fn text_is(a: &str, b: &str) -> (r: bool)
    ensures
        r == (a@ == b@),
{
    let n = a.unicode_len();
    if n != b.unicode_len() {
        return false;
    }
    let mut i: usize = 0;
    while i < n
        invariant
            i <= n,
            n == a@.len(),
            n == b@.len(),
            forall|j: int| 0 <= j < i ==> a@[j] == b@[j],
        decreases n - i,
    {
        if a.get_char(i) != b.get_char(i) {
            return false;
        }
        i = i + 1;
    }
    proof {
        assert(a@ =~= b@);
    }
    true
}

impl RecordName {
    /// Maps an XML tag of a prototype element to its record name.
    pub fn from_tag_name(value: &str) -> (r: Result<Self, Error>)
        ensures
            r == match name_of_tag(value@) {
                Some(n) => Ok(n),
                None => Err(Error::Unimplemented(Unimplemented::RecordName)),
            },
    {
        if text_is(value, RecordName::CartesianX.tag_name()) {
            return Ok(RecordName::CartesianX);
        }
        if text_is(value, RecordName::CartesianY.tag_name()) {
            return Ok(RecordName::CartesianY);
        }
        if text_is(value, RecordName::CartesianZ.tag_name()) {
            return Ok(RecordName::CartesianZ);
        }
        if text_is(value, RecordName::CartesianInvalidState.tag_name()) {
            return Ok(RecordName::CartesianInvalidState);
        }
        if text_is(value, RecordName::SphericalRange.tag_name()) {
            return Ok(RecordName::SphericalRange);
        }
        if text_is(value, RecordName::SphericalAzimuth.tag_name()) {
            return Ok(RecordName::SphericalAzimuth);
        }
        if text_is(value, RecordName::SphericalElevation.tag_name()) {
            return Ok(RecordName::SphericalElevation);
        }
        if text_is(value, RecordName::SphericalInvalidState.tag_name()) {
            return Ok(RecordName::SphericalInvalidState);
        }
        if text_is(value, RecordName::Intensity.tag_name()) {
            return Ok(RecordName::Intensity);
        }
        if text_is(value, RecordName::IsIntensityInvalid.tag_name()) {
            return Ok(RecordName::IsIntensityInvalid);
        }
        if text_is(value, RecordName::ColorRed.tag_name()) {
            return Ok(RecordName::ColorRed);
        }
        if text_is(value, RecordName::ColorGreen.tag_name()) {
            return Ok(RecordName::ColorGreen);
        }
        if text_is(value, RecordName::ColorBlue.tag_name()) {
            return Ok(RecordName::ColorBlue);
        }
        if text_is(value, RecordName::IsColorInvalid.tag_name()) {
            return Ok(RecordName::IsColorInvalid);
        }
        if text_is(value, RecordName::RowIndex.tag_name()) {
            return Ok(RecordName::RowIndex);
        }
        if text_is(value, RecordName::ColumnIndex.tag_name()) {
            return Ok(RecordName::ColumnIndex);
        }
        if text_is(value, RecordName::ReturnCount.tag_name()) {
            return Ok(RecordName::ReturnCount);
        }
        if text_is(value, RecordName::ReturnIndex.tag_name()) {
            return Ok(RecordName::ReturnIndex);
        }
        if text_is(value, RecordName::TimeStamp.tag_name()) {
            return Ok(RecordName::TimeStamp);
        }
        if text_is(value, RecordName::IsTimeStampInvalid.tag_name()) {
            return Ok(RecordName::IsTimeStampInvalid);
        }
        Err(Error::Unimplemented(Unimplemented::RecordName))
    }

    /// The XML tag of this record name.
    pub fn tag_name(&self) -> (r: &'static str)
        ensures
            r@ == tag_of(*self),
    {
        match self {
            RecordName::CartesianX => "cartesianX",
            RecordName::CartesianY => "cartesianY",
            RecordName::CartesianZ => "cartesianZ",
            RecordName::CartesianInvalidState => "cartesianInvalidState",
            RecordName::SphericalRange => "sphericalRange",
            RecordName::SphericalAzimuth => "sphericalAzimuth",
            RecordName::SphericalElevation => "sphericalElevation",
            RecordName::SphericalInvalidState => "sphericalInvalidState",
            RecordName::Intensity => "intensity",
            RecordName::IsIntensityInvalid => "isIntensityInvalid",
            RecordName::ColorRed => "colorRed",
            RecordName::ColorGreen => "colorGreen",
            RecordName::ColorBlue => "colorBlue",
            RecordName::IsColorInvalid => "isColorInvalid",
            RecordName::RowIndex => "rowIndex",
            RecordName::ColumnIndex => "columnIndex",
            RecordName::ReturnCount => "returnCount",
            RecordName::ReturnIndex => "returnIndex",
            RecordName::TimeStamp => "timeStamp",
            RecordName::IsTimeStampInvalid => "isTimeStampInvalid",
        }
    }
}

/// How the values of a record are encoded. Floating-point bounds and the scale of scaled
/// integers do not take part in decoding and are kept by the metadata layer.
#[derive(Clone, Copy, Debug, PartialEq, Eq, Structural)]
pub enum RecordDataType {
    /// 32-bit IEEE 754 floating point value.
    Single,
    /// 64-bit IEEE 754 floating point value.
    Double,
    /// Signed integer within `[min, max]`, multiplied by a scale when converted.
    ScaledInteger { min: i64, max: i64 },
    /// Signed integer within `[min, max]`.
    Integer { min: i64, max: i64 },
}

/// Describes a record inside an E57 file with name and data type.
#[derive(Clone, Copy, Debug, PartialEq, Eq, Structural)]
pub struct Record {
    pub name: RecordName,
    pub data_type: RecordDataType,
}

/// A raw value of a record: integers as decoded, floating-point values as their bit patterns.
#[derive(Clone, Copy, Debug, PartialEq, Eq, Structural)]
pub enum RecordValue {
    /// Bit pattern of a 32-bit float.
    Single(u32),
    /// Bit pattern of a 64-bit float.
    Double(u64),
    /// Unscaled value of a scaled integer.
    ScaledInteger(i64),
    /// Integer value.
    Integer(i64),
}

/// Optional minimum and maximum values for the row, column and return indices.
#[derive(Clone, Copy, Debug, Default, PartialEq, Eq, Structural)]
pub struct IndexBounds {
    pub row_min: Option<i64>,
    pub row_max: Option<i64>,
    pub column_min: Option<i64>,
    pub column_max: Option<i64>,
    pub return_min: Option<i64>,
    pub return_max: Option<i64>,
}

/// Describes a binary data blob stored inside an E57 file.
#[derive(Clone, Copy, Debug, PartialEq, Eq, Structural)]
pub struct Blob {
    /// Physical file offset of the binary blob section.
    pub offset: u64,
    /// The logical size of the blob in bytes.
    pub length: u64,
}

/// E57 XML root structure with information shared by all elements in the file.
#[derive(Clone, Debug)]
pub struct Root {
    pub format: String,
    pub guid: String,
    pub major_version: i64,
    pub minor_version: i64,
    pub library_version: Option<String>,
    pub coordinate_metadata: Option<String>,
}

/// The part of a point cloud descriptor that decoding needs.
#[derive(Clone, Debug)]
pub struct PointCloud {
    /// Physical file offset of the compressed vector section.
    pub file_offset: u64,
    /// Number of points in the point cloud.
    pub records: u64,
    /// Attributes of each point, in the order in which the packets hold them.
    pub prototype: Vec<Record>,
}

} // verus!
