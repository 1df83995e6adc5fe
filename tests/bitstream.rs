use std::collections::VecDeque;
use e57::bitpack::{unpack_doubles, unpack_ints, unpack_scaled_ints, unpack_singles};
use e57::{logic_to_phys, phys_to_logic, read_logical, ByteStreamReadBuffer, Error, Invalid, RecordValue, Unimplemented};

fn pack(fields: &[(u32, u64)]) -> Vec<u8> {
    let total: u32 = fields.iter().map(|f| f.0).sum();
    let mut out = vec![0_u8; ((total + 7) / 8) as usize];
    let mut pos: usize = 0;
    for &(bits, value) in fields {
        for b in 0..bits as usize {
            if (value >> b) & 1 == 1 {
                out[(pos + b) / 8] |= 1 << ((pos + b) % 8);
            }
        }
        pos += bits as usize;
    }
    out
}

#[test]
fn extract_round_trip() {
    let fields = [
        (3_u32, 5_u64),
        (56, 0x00AB_CDEF_0123_4567),
        (64, 0xFEDC_BA98_7654_3210),
        (1, 1),
        (13, 4097),
        (64, u64::MAX),
        (7, 0),
        (32, 0x3F80_0000),
    ];
    let mut stream = ByteStreamReadBuffer::new();
    stream.append(pack(&fields));
    for &(bits, value) in fields.iter() {
        assert_eq!(stream.extract_int(bits), Some(value));
    }
}

#[test]
fn extract_across_appended_slices() {
    let fields = [(15_u32, 20000_u64), (15, 1), (15, 12345), (15, 32767)];
    let bytes = pack(&fields);
    let mut stream = ByteStreamReadBuffer::new();
    stream.append(bytes[..3].to_vec());
    assert_eq!(stream.available(), 24);
    assert_eq!(stream.extract_int(15), Some(20000));
    assert_eq!(stream.extract_int(15), None);
    assert_eq!(stream.available(), 9);
    stream.append(bytes[3..].to_vec());
    assert_eq!(stream.extract_int(15), Some(1));
    assert_eq!(stream.extract_int(15), Some(12345));
    assert_eq!(stream.extract_int(15), Some(32767));
    assert_eq!(stream.available(), 4);
    assert_eq!(stream.extract_int(5), None);
    assert_eq!(stream.extract_int(4), Some(0));
}

#[test]
fn extract_from_empty_stream() {
    let mut stream = ByteStreamReadBuffer::new();
    assert_eq!(stream.available(), 0);
    assert_eq!(stream.extract_int(1), None);
}

#[test]
fn logical_physical_round_trip() {
    for l in [0_u64, 1, 1019, 1020, 1021, 2039, 2040, 100000, 1_000_000_007] {
        let p = logic_to_phys(l);
        assert!(p % 1024 < 1020);
        assert_eq!(phys_to_logic(p), l);
    }
    assert_eq!(logic_to_phys(1020), 1024);
    assert_eq!(logic_to_phys(100000), 100000 + 98 * 4);
}

#[test]
fn logical_read_skips_checksums() {
    let mut data = vec![0_u8; 2048];
    for i in 0..2048 {
        data[i] = (i % 251) as u8;
    }
    let span = read_logical(&data, 1018, 4).unwrap();
    assert_eq!(span, vec![data[1018], data[1019], data[1024], data[1025]]);
    assert_eq!(read_logical(&data, 2038, 2).unwrap(), vec![data[2042], data[2043]]);
    assert_eq!(read_logical(&data, 2039, 2), Err(e57::Error::Read));
    assert_eq!(read_logical(&data, 0, 0).unwrap(), Vec::<u8>::new());
}

#[test]
fn unpack_all_doubles() {
    let mut bytes = 2.5_f64.to_le_bytes().to_vec();
    bytes.extend_from_slice(&(-0.125_f64).to_le_bytes());
    let mut stream = ByteStreamReadBuffer::new();
    stream.append(bytes);
    let mut queue = VecDeque::new();
    assert_eq!(unpack_doubles(&mut stream, &mut queue), Ok(()));
    assert_eq!(
        queue,
        vec![RecordValue::Double(2.5_f64.to_bits()), RecordValue::Double((-0.125_f64).to_bits())]
    );
    assert_eq!(stream.available(), 0);
}

#[test]
fn unpack_partial_doubles_is_invalid() {
    let mut stream = ByteStreamReadBuffer::new();
    stream.append(vec![0_u8; 12]);
    let mut queue = VecDeque::new();
    assert_eq!(unpack_doubles(&mut stream, &mut queue), Err(Error::Invalid(Invalid::PacketLength)));
    assert!(queue.is_empty());
    assert_eq!(stream.available(), 96);
}

#[test]
fn unpack_all_singles() {
    let mut stream = ByteStreamReadBuffer::new();
    stream.append(1.0_f32.to_le_bytes().to_vec());
    let mut queue = VecDeque::from(vec![RecordValue::Integer(9)]);
    assert_eq!(unpack_singles(&mut stream, &mut queue), Ok(()));
    assert_eq!(queue, vec![RecordValue::Integer(9), RecordValue::Single(1.0_f32.to_bits())]);
}

#[test]
fn unpack_all_ints() {
    let mut stream = ByteStreamReadBuffer::new();
    stream.append(pack(&[(3, 0), (3, 7), (3, 3)]));
    let mut queue = VecDeque::new();
    assert_eq!(unpack_ints(&mut stream, -3, 4, &mut queue), Ok(()));
    assert_eq!(
        queue,
        vec![
            RecordValue::Integer(-3),
            RecordValue::Integer(4),
            RecordValue::Integer(0),
            RecordValue::Integer(-3),
            RecordValue::Integer(-3),
        ]
    );
    assert_eq!(stream.available(), 1);
}

#[test]
fn unpack_scaled_ints_out_of_range() {
    let mut stream = ByteStreamReadBuffer::new();
    stream.append(pack(&[(3, 1), (3, 6)]));
    let mut queue = VecDeque::new();
    assert_eq!(
        unpack_scaled_ints(&mut stream, 0, 4, &mut queue),
        Err(Error::Invalid(Invalid::ValueOutOfRange))
    );
    assert_eq!(queue, vec![RecordValue::ScaledInteger(1)]);
}

#[test]
fn unpack_wide_ints_is_unimplemented() {
    let mut stream = ByteStreamReadBuffer::new();
    stream.append(vec![0_u8; 16]);
    let mut queue = VecDeque::new();
    assert_eq!(
        unpack_ints(&mut stream, 0, 1 << 57, &mut queue),
        Err(Error::Unimplemented(Unimplemented::IntegerBits(58)))
    );
    assert_eq!(unpack_ints(&mut stream, 5, 5, &mut queue), Err(Error::Invalid(Invalid::IntegerBounds)));
    assert_eq!(stream.available(), 128);
}

#[test]
fn unpack_full_width_ints() {
    let mut bytes = 5_u64.to_le_bytes().to_vec();
    bytes.extend_from_slice(&u64::MAX.to_le_bytes());
    let mut stream = ByteStreamReadBuffer::new();
    stream.append(bytes);
    let mut queue = VecDeque::new();
    assert_eq!(unpack_ints(&mut stream, i64::MIN, i64::MAX, &mut queue), Ok(()));
    assert_eq!(queue, vec![RecordValue::Integer(i64::MIN + 5), RecordValue::Integer(i64::MAX)]);
    let mut stream = ByteStreamReadBuffer::new();
    stream.append(7_u64.to_le_bytes().to_vec());
    let mut queue = VecDeque::new();
    assert_eq!(unpack_scaled_ints(&mut stream, -1, i64::MAX, &mut queue), Ok(()));
    assert_eq!(queue, vec![RecordValue::ScaledInteger(6)]);
}

#[test]
fn byte_converter_keeps_low_bits() {
    let c = e57::converter::U8Converter;
    assert_eq!(c.convert(200), 200);
    assert_eq!(c.convert(300), 44);
    assert_eq!(c.convert(-1), 255);
}
