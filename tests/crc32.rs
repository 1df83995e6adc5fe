use e57::Crc32;

#[test]
fn crc32_empty() {
    let data = [0_u8; 0];
    let mut crc = Crc32::new();
    let sum = crc.calculate(&data);
    assert_eq!(sum, 0);
}

#[test]
fn single_u64() {
    let data = [123_u8; 8];
    let mut crc = Crc32::new();
    let sum = crc.calculate(&data);
    assert_eq!(sum, 3786498929);
}

#[test]
fn full_page() {
    let mut data = [0_u8; 1024];
    for i in 0..data.len() {
        data[i] = (i % 256) as u8;
    }
    let mut crc = Crc32::new();
    let sum = crc.calculate(&data);
    assert_eq!(sum, 752840335);
}

#[test]
fn crc32c_check_value() {
    let mut crc = Crc32::new();
    assert_eq!(crc.calculate(b"123456789"), 0xE306_9283);
}

#[test]
fn crc32_page_checksums_of_written_pages() {
    let mut crc = Crc32::new();
    let mut page = vec![0_u8; 1020];
    page[0] = 0;
    page[1] = 1;
    page[2] = 2;
    assert_eq!(crc.calculate(&page).to_be_bytes(), [156, 69, 208, 231]);
    let ones = vec![1_u8; 1020];
    assert_eq!(crc.calculate(&ones).to_be_bytes(), [25, 85, 144, 35]);
}
