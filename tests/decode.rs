use e57::{
    BlobSectionHeader, CompressedVectorSectionHeader, Crc32, DataPacketHeader, Error, Header,
    Invalid, PointCloud, Record, RecordDataType, RecordName, RecordValue, Unimplemented, E57,
};

const XML_AT: usize = 48;
const SECTION_AT: usize = 2030;
const PACKETS_AT: usize = 2100;

fn phys(l: usize) -> u64 {
    (l + (l / 1020) * 4) as u64
}

fn put(buf: &mut Vec<u8>, at: usize, bytes: &[u8]) {
    if buf.len() < at + bytes.len() {
        buf.resize(at + bytes.len(), 0);
    }
    buf[at..at + bytes.len()].copy_from_slice(bytes);
}

/// Splits logical bytes into pages of 1020 payload bytes, each followed by its checksum.
fn paginate(logical: &[u8]) -> Vec<u8> {
    let mut crc = Crc32::new();
    let mut out = Vec::new();
    let pages = (logical.len() + 1019) / 1020;
    for k in 0..pages.max(1) {
        let mut payload = vec![0_u8; 1020];
        for i in 0..1020 {
            if k * 1020 + i < logical.len() {
                payload[i] = logical[k * 1020 + i];
            }
        }
        let sum = crc.calculate(&payload);
        out.extend_from_slice(&payload);
        out.extend_from_slice(&sum.to_be_bytes());
    }
    out
}

fn packet(kind: u8, flags: u8, slices: &[Vec<u8>]) -> Vec<u8> {
    let mut p = vec![kind, flags, 0, 0];
    p.extend_from_slice(&(slices.len() as u16).to_le_bytes());
    for s in slices {
        p.extend_from_slice(&(s.len() as u16).to_le_bytes());
    }
    for s in slices {
        p.extend_from_slice(s);
    }
    while p.len() % 4 != 0 {
        p.push(0);
    }
    let len = (p.len() - 1) as u16;
    p[2..4].copy_from_slice(&len.to_le_bytes());
    p
}

fn pack(fields: &[(u32, u64)]) -> Vec<u8> {
    let total: u32 = fields.iter().map(|f| f.0).sum();
    let mut out = vec![0_u8; ((total + 7) / 8) as usize];
    let mut pos: usize = 0;
    for &(bits, value) in fields {
        for b in 0..bits as usize {
            if (value >> b) & 1 == 1 {
                out[(pos + b) / 8] |= 1 << ((pos + b) % 8);
            }
        }
        pos += bits as usize;
    }
    out
}

/// Builds a file with an XML section, one compressed vector section and the given packets.
fn build_file(xml: &[u8], packets: &[Vec<u8>], min_pages: usize) -> Vec<u8> {
    let mut logical = Vec::new();
    put(&mut logical, XML_AT, xml);
    let mut at = PACKETS_AT;
    for p in packets {
        put(&mut logical, at, p);
        at += p.len();
    }
    let mut section = vec![0_u8; 32];
    section[0] = 1;
    section[8..16].copy_from_slice(&(((at - SECTION_AT) as u64 + 3) / 4 * 4).to_le_bytes());
    section[16..24].copy_from_slice(&phys(PACKETS_AT).to_le_bytes());
    put(&mut logical, SECTION_AT, &section);
    if logical.len() < min_pages * 1020 {
        logical.resize(min_pages * 1020, 0);
    }
    let pages = (logical.len() + 1019) / 1020;
    let mut header = Vec::new();
    header.extend_from_slice(b"ASTM-E57");
    header.extend_from_slice(&1_u32.to_le_bytes());
    header.extend_from_slice(&0_u32.to_le_bytes());
    header.extend_from_slice(&((pages * 1024) as u64).to_le_bytes());
    header.extend_from_slice(&phys(XML_AT).to_le_bytes());
    header.extend_from_slice(&(xml.len() as u64).to_le_bytes());
    header.extend_from_slice(&1024_u64.to_le_bytes());
    put(&mut logical, 0, &header);
    paginate(&logical)
}

fn cloud(records: u64, prototype: Vec<Record>) -> PointCloud {
    PointCloud { file_offset: phys(SECTION_AT), records, prototype }
}

fn xyz(data_type: RecordDataType) -> Vec<Record> {
    vec![
        Record { name: RecordName::CartesianX, data_type },
        Record { name: RecordName::CartesianY, data_type },
        Record { name: RecordName::CartesianZ, data_type },
    ]
}

const POINTS: [[f64; 3]; 5] = [
    [1.5, -2.25, 3.0],
    [0.001, 0.002, -0.003],
    [9.999, -9.999, 0.0],
    [-4.2, 7.125, 2.5],
    [0.5, 0.25, -0.125],
];

fn double_file() -> Vec<u8> {
    let column = |c: usize, range: std::ops::Range<usize>| -> Vec<u8> {
        range.flat_map(|i| POINTS[i][c].to_le_bytes()).collect()
    };
    let first = packet(1, 0, &[column(0, 0..3), column(1, 0..3), column(2, 0..3)]);
    let second = packet(1, 0, &[column(0, 3..5), column(1, 3..5), column(2, 3..5)]);
    build_file(b"<e57Root/>", &[first, second], 0)
}

const SCALE: f64 = 0.001;
const SCALED_MIN: i64 = -10000;
const SCALED_MAX: i64 = 10000;

fn scaled_file() -> Vec<u8> {
    let column = |c: usize| -> Vec<u8> {
        let fields: Vec<(u32, u64)> = (0..5)
            .map(|i| (15, ((POINTS[i][c] / SCALE).round() as i64 - SCALED_MIN) as u64))
            .collect();
        pack(&fields)
    };
    let cols = [column(0), column(1), column(2)];
    let first = packet(1, 0, &[cols[0][..5].to_vec(), cols[1][..5].to_vec(), cols[2][..5].to_vec()]);
    let second = packet(1, 0, &[cols[0][5..].to_vec(), cols[1][5..].to_vec(), cols[2][5..].to_vec()]);
    build_file(b"<e57Root/>", &[first, second], 0)
}

fn all_points(data: &[u8], pc: &PointCloud) -> Result<Vec<Vec<RecordValue>>, Error> {
    let file = E57::new(data)?;
    let mut reader = file.pointcloud(pc)?;
    reader.read_all()
}

#[test]
fn header_of_written_file() {
    let data = double_file();
    let file = E57::new(&data).unwrap();
    let header = file.get_header();
    assert_eq!(header.major, 1);
    assert_eq!(header.minor, 0);
    assert_eq!(header.page_size, 1024);
    assert_eq!(&header.signature, b"ASTM-E57");
    assert_eq!(header.phys_length, data.len() as u64);
    assert_eq!(file.get_xml().len() as u64, header.xml_length);
    assert_eq!(file.get_xml(), b"<e57Root/>".to_vec());
}

#[test]
fn header_errors() {
    let data = double_file();
    assert_eq!(Header::read(&data[..47]).err(), Some(Error::Read));
    let mut bad = data.clone();
    bad[0] = b'X';
    assert_eq!(Header::read(&bad).err(), Some(Error::Invalid(Invalid::Signature)));
    let mut bad = data.clone();
    bad[8] = 2;
    assert_eq!(Header::read(&bad).err(), Some(Error::Invalid(Invalid::MajorVersion)));
    let mut bad = data.clone();
    bad[12] = 1;
    assert_eq!(Header::read(&bad).err(), Some(Error::Invalid(Invalid::MinorVersion)));
    let mut bad = data.clone();
    bad[41] = 8;
    assert_eq!(Header::read(&bad).err(), Some(Error::Invalid(Invalid::PageSize)));
    assert_eq!(E57::new(&data[..1000]).err(), Some(Error::Invalid(Invalid::FileSize)));
}

#[test]
fn validate_unmodified_file() {
    let data = double_file();
    let file = E57::new(&data).unwrap();
    assert_eq!(file.validate_crc(), Ok(()));
}

#[test]
fn corrupted_payload_byte_names_its_page() {
    let mut data = build_file(b"<e57Root/>", &[], 120);
    assert_eq!(E57::new(&data).unwrap().validate_crc(), Ok(()));
    let at = phys(100000) as usize;
    data[at] ^= 0x01;
    let file = E57::new(&data).unwrap();
    assert_eq!(
        file.validate_crc(),
        Err(Error::Invalid(Invalid::Checksum(100000 / 1020)))
    );
}

#[test]
fn double_cloud_yields_all_records() {
    let data = double_file();
    let pc = cloud(5, xyz(RecordDataType::Double));
    let points = all_points(&data, &pc).unwrap();
    assert_eq!(points.len(), 5);
    for (i, p) in points.iter().enumerate() {
        for c in 0..3 {
            assert_eq!(p[c], RecordValue::Double(POINTS[i][c].to_bits()));
        }
    }
}

#[test]
fn iterator_stops_after_records() {
    let data = double_file();
    let pc = cloud(4, xyz(RecordDataType::Double));
    let file = E57::new(&data).unwrap();
    let mut reader = file.pointcloud(&pc).unwrap();
    let mut n = 0;
    while let Some(p) = reader.next() {
        let p = p.unwrap();
        assert_eq!(p.len(), 3);
        n += 1;
    }
    assert_eq!(n, 4);
    assert_eq!(reader.next(), None);
}

#[test]
fn double_and_scaled_clouds_agree() {
    let doubles = all_points(&double_file(), &cloud(5, xyz(RecordDataType::Double))).unwrap();
    let scaled_type = RecordDataType::ScaledInteger { min: SCALED_MIN, max: SCALED_MAX };
    let scaled = all_points(&scaled_file(), &cloud(5, xyz(scaled_type))).unwrap();
    assert_eq!(scaled.len(), doubles.len());
    for i in 0..5 {
        for c in 0..3 {
            let d = match doubles[i][c] {
                RecordValue::Double(bits) => f64::from_bits(bits),
                ref other => panic!("unexpected value {:?}", other),
            };
            let s = match scaled[i][c] {
                RecordValue::ScaledInteger(v) => {
                    assert!(SCALED_MIN <= v && v <= SCALED_MAX);
                    v as f64 * SCALE
                },
                ref other => panic!("unexpected value {:?}", other),
            };
            assert!((d - s).abs() <= SCALE * 0.5);
        }
    }
}

#[test]
fn first_point_lies_within_bounds() {
    let scaled_type = RecordDataType::ScaledInteger { min: SCALED_MIN, max: SCALED_MAX };
    let points = all_points(&scaled_file(), &cloud(5, xyz(scaled_type))).unwrap();
    for c in 0..3 {
        match points[0][c] {
            RecordValue::ScaledInteger(v) => {
                let x = v as f64 * SCALE;
                assert!(-10.0 <= x && x <= 10.0);
            },
            ref other => panic!("unexpected value {:?}", other),
        }
    }
}

fn single_field_file(kind: u8) -> Vec<u8> {
    build_file(b"<e57Root/>", &[packet(kind, 0, &[vec![1, 2, 3, 4]])], 0)
}

fn single_field_cloud() -> PointCloud {
    cloud(1, vec![Record { name: RecordName::ColorRed, data_type: RecordDataType::Integer { min: 0, max: 255 } }])
}

#[test]
fn index_and_ignored_packets_are_unimplemented() {
    let pc = single_field_cloud();
    assert_eq!(
        all_points(&single_field_file(0), &pc).err(),
        Some(Error::Unimplemented(Unimplemented::IndexPacket))
    );
    assert_eq!(
        all_points(&single_field_file(2), &pc).err(),
        Some(Error::Unimplemented(Unimplemented::IgnoredPacket))
    );
}

#[test]
fn unknown_packet_type_is_invalid() {
    let pc = single_field_cloud();
    assert_eq!(
        all_points(&single_field_file(3), &pc).err(),
        Some(Error::Invalid(Invalid::PacketType(3)))
    );
    assert_eq!(all_points(&single_field_file(1), &pc).unwrap(), vec![vec![RecordValue::Integer(1)]]);
}

#[test]
fn no_points_after_an_error() {
    let data = single_field_file(3);
    let file = E57::new(&data).unwrap();
    let pc = single_field_cloud();
    let mut reader = file.pointcloud(&pc).unwrap();
    assert!(matches!(reader.next(), Some(Err(Error::Invalid(_)))));
    assert_eq!(reader.next(), None);
}

#[test]
fn bytestream_count_must_match_prototype() {
    let data = single_field_file(1);
    let pc = cloud(1, xyz(RecordDataType::Double));
    assert_eq!(all_points(&data, &pc).err(), Some(Error::Invalid(Invalid::BytestreamCount)));
}

#[test]
fn integer_values_stay_within_bounds() {
    let field = RecordDataType::Integer { min: 10, max: 15 };
    let pc = cloud(3, vec![Record { name: RecordName::RowIndex, data_type: field }]);
    let ok = packet(1, 0, &[pack(&[(3, 0), (3, 5), (3, 2)])]);
    let points = all_points(&build_file(b"", &[ok], 0), &pc).unwrap();
    assert_eq!(
        points,
        vec![vec![RecordValue::Integer(10)], vec![RecordValue::Integer(15)], vec![RecordValue::Integer(12)]]
    );
    let too_big = packet(1, 0, &[pack(&[(3, 1), (3, 6), (3, 2)])]);
    assert_eq!(
        all_points(&build_file(b"", &[too_big], 0), &pc).err(),
        Some(Error::Invalid(Invalid::ValueOutOfRange))
    );
}

#[test]
fn wide_integers_are_unimplemented() {
    let field = RecordDataType::Integer { min: 0, max: 1 << 59 };
    let pc = cloud(1, vec![Record { name: RecordName::TimeStamp, data_type: field }]);
    assert_eq!(
        all_points(&single_field_file(1), &pc).err(),
        Some(Error::Unimplemented(Unimplemented::IntegerBits(60)))
    );
    let empty = RecordDataType::Integer { min: 3, max: 3 };
    let pc = cloud(1, vec![Record { name: RecordName::TimeStamp, data_type: empty }]);
    assert_eq!(
        all_points(&single_field_file(1), &pc).err(),
        Some(Error::Invalid(Invalid::IntegerBounds))
    );
}

#[test]
fn compressor_restart_drops_unread_bits() {
    let field = RecordDataType::Integer { min: 0, max: 7 };
    let pc = cloud(3, vec![Record { name: RecordName::ColorBlue, data_type: field }]);
    let first = packet(1, 0, &[pack(&[(3, 1), (3, 2), (2, 3)])]);
    let restart = packet(1, 1, &[pack(&[(3, 5)])]);
    let points = all_points(&build_file(b"", &[first.clone(), restart], 0), &pc).unwrap();
    assert_eq!(points[2], vec![RecordValue::Integer(5)]);
    let go_on = packet(1, 0, &[pack(&[(3, 5)])]);
    let points = all_points(&build_file(b"", &[first, go_on], 0), &pc).unwrap();
    assert_eq!(points[2], vec![RecordValue::Integer(3 | (1 << 2))]);
}

#[test]
fn singles_are_decoded_as_bit_patterns() {
    let pc = cloud(2, vec![Record { name: RecordName::Intensity, data_type: RecordDataType::Single }]);
    let mut slice = 0.75_f32.to_le_bytes().to_vec();
    slice.extend_from_slice(&(-1.5_f32).to_le_bytes());
    let data = build_file(b"", &[packet(1, 0, &[slice])], 0);
    let points = all_points(&data, &pc).unwrap();
    assert_eq!(points[0], vec![RecordValue::Single(0.75_f32.to_bits())]);
    assert_eq!(points[1], vec![RecordValue::Single((-1.5_f32).to_bits())]);
}

#[test]
fn crc_check_does_not_change_decoding() {
    let data = double_file();
    let pc = cloud(5, xyz(RecordDataType::Double));
    let file = E57::new(&data).unwrap();
    assert_eq!(file.validate_crc(), Ok(()));
    let first = file.pointcloud(&pc).unwrap().read_all().unwrap();
    let file = E57::new(&data).unwrap();
    let second = file.pointcloud(&pc).unwrap().read_all().unwrap();
    assert_eq!(file.validate_crc(), Ok(()));
    assert_eq!(first, second);
}

#[test]
fn section_header_errors() {
    let mut b = vec![0_u8; 32];
    b[0] = 2;
    assert_eq!(CompressedVectorSectionHeader::from_bytes(&b).err(), Some(Error::Invalid(Invalid::SectionId)));
    b[0] = 1;
    b[8] = 6;
    assert_eq!(
        CompressedVectorSectionHeader::from_bytes(&b).err(),
        Some(Error::Invalid(Invalid::SectionLength))
    );
    b[8] = 8;
    b[16] = 0x34;
    b[17] = 0x12;
    let h = CompressedVectorSectionHeader::from_bytes(&b).unwrap();
    assert_eq!(h.section_length, 8);
    assert_eq!(h.data_offset, 0x1234);
    assert_eq!(CompressedVectorSectionHeader::from_bytes(&b[..31]).err(), Some(Error::Read));
}

#[test]
fn blob_section_header() {
    let mut b = vec![0_u8; 16];
    b[8] = 200;
    b[9] = 1;
    assert_eq!(BlobSectionHeader::from_array(&b).unwrap().section_length, 456);
    b[0] = 1;
    assert_eq!(BlobSectionHeader::from_array(&b).err(), Some(Error::Invalid(Invalid::BlobSectionId)));
}

#[test]
fn data_packet_header_fields() {
    let h = DataPacketHeader::from_bytes(&[1, 1, 0x0f, 0, 2, 0], 2).unwrap();
    assert_eq!(h.packet_length, 16);
    assert!(h.comp_restart);
    assert_eq!(h.bytestream_count, 2);
    assert_eq!(
        DataPacketHeader::from_bytes(&[1, 0, 0x0f, 0, 2, 0], 3).err(),
        Some(Error::Invalid(Invalid::BytestreamCount))
    );
}

#[test]
fn record_names_from_tags() {
    assert_eq!(RecordName::from_tag_name("cartesianX"), Ok(RecordName::CartesianX));
    assert_eq!(RecordName::from_tag_name("isTimeStampInvalid"), Ok(RecordName::IsTimeStampInvalid));
    assert_eq!(RecordName::from_tag_name("colorGreen"), Ok(RecordName::ColorGreen));
    assert_eq!(
        RecordName::from_tag_name("cartesianW"),
        Err(Error::Unimplemented(Unimplemented::RecordName))
    );
    assert_eq!(RecordName::ColumnIndex.tag_name(), "columnIndex");
}

#[test]
fn section_offset_in_checksum_is_invalid() {
    let data = double_file();
    let mut pc = cloud(5, xyz(RecordDataType::Double));
    pc.file_offset = 1021;
    let file = E57::new(&data).unwrap();
    assert_eq!(file.pointcloud(&pc).err(), Some(Error::Invalid(Invalid::Offset)));
    pc.file_offset = data.len() as u64;
    assert_eq!(file.pointcloud(&pc).err(), Some(Error::Invalid(Invalid::Offset)));
}

#[test]
fn slices_longer_than_packet_are_invalid() {
    let mut p = packet(1, 0, &[vec![7_u8; 8]]);
    p[2] = 7;
    p[3] = 0;
    let data = build_file(b"", &[p], 0);
    let pc = cloud(1, vec![Record { name: RecordName::RowIndex, data_type: RecordDataType::Integer { min: 0, max: 255 } }]);
    assert_eq!(all_points(&data, &pc).err(), Some(Error::Invalid(Invalid::PacketLength)));
}

#[test]
fn paged_reader_moves_over_pages() {
    let data = double_file();
    let mut reader = e57::PagedReader::new(&data).unwrap();
    assert_eq!(reader.seek_physical(1020), Err(Error::Invalid(Invalid::Offset)));
    reader.seek_physical(1016).unwrap();
    let bytes = reader.read_exact(8).unwrap();
    assert_eq!(bytes, vec![data[1016], data[1017], data[1018], data[1019], data[1024], data[1025], data[1026], data[1027]]);
    assert_eq!(reader.position_u64(), 1024);
    reader.skip(1);
    reader.align();
    assert_eq!(reader.position_u64(), 1028);
    assert!(e57::PagedReader::new(&data[..1023]).is_err());
}

#[test]
fn section_header_read_advances_reader() {
    let data = double_file();
    let mut reader = e57::PagedReader::new(&data).unwrap();
    reader.seek_physical(phys(SECTION_AT)).unwrap();
    let h = CompressedVectorSectionHeader::read(&mut reader).unwrap();
    assert_eq!(h.data_offset, phys(PACKETS_AT));
    assert_eq!(reader.position_u64(), (SECTION_AT + 32) as u64);
}
