use fdm::util::{u8_arr_to_string, ByteReader, LineError, ReadEx};

#[test]
fn u8_arr_to_string_maps_each_byte() {
    assert_eq!(u8_arr_to_string(vec![68, 83, 65, 65]), "DSAA");
    assert_eq!(u8_arr_to_string(vec![0xe9, 0x41]), "\u{e9}A");
    assert_eq!(u8_arr_to_string(vec![]), "");
}

#[test]
fn read_str_consumes_bytes() {
    let mut r = ByteReader::new(b"DSBBrest".to_vec());
    assert_eq!(r.read_str(4), "DSBB");
    assert_eq!(r.remaining(), 4);
    assert_eq!(r.read_str(0), "");
    assert_eq!(r.read_str(4), "rest");
    assert_eq!(r.remaining(), 0);
}

#[test]
fn little_endian_reads() {
    let mut bytes = vec![1u8, 0, 0, 0, 0xff, 0xff, 0xff, 0xff];
    bytes.extend_from_slice(&1.5f64.to_le_bytes());
    bytes.extend_from_slice(&[7, 7]);
    let mut r = ByteReader::new(bytes);
    assert_eq!(r.read_i32_le(), Some(1));
    assert_eq!(r.read_i32_le(), Some(-1));
    assert_eq!(r.read_u64_le(), Some(1.5f64.to_bits()));
    assert_eq!(r.read_u64_le(), None);
    assert_eq!(r.read_i32_le(), None);
    assert_eq!(r.remaining(), 2);
}

#[test]
fn seek_past_end_reads_nothing() {
    let mut r = ByteReader::new(vec![1, 2, 3]);
    r.seek_to(100);
    assert_eq!(r.remaining(), 0);
    assert_eq!(r.read_i32_le(), None);
    assert_eq!(r.read_line(), None);
    r.seek_to(1);
    assert_eq!(r.remaining(), 2);
    assert_eq!(r.len(), 3);
}

#[test]
fn read_line_as_lines_next() {
    let mut r = ByteReader::new(b"a\r\nb\r\r\n\nlast\r".to_vec());
    assert_eq!(r.read_line(), Some(Ok("a".to_string())));
    assert_eq!(r.read_line(), Some(Ok("b\r".to_string())));
    assert_eq!(r.read_line(), Some(Ok("".to_string())));
    assert_eq!(r.read_line(), Some(Ok("last\r".to_string())));
    assert_eq!(r.read_line(), None);
}

#[test]
fn read_line_rejects_invalid_utf8() {
    let mut r = ByteReader::new(vec![0xff, b'\n', b'o', b'k']);
    assert_eq!(r.read_line(), Some(Err(LineError::InvalidUtf8)));
    assert_eq!(r.read_line(), Some(Ok("ok".to_string())));
}

#[test]
fn consecutive_reads_concatenate() {
    let bytes = b"\x41\xe9xyz!".to_vec();
    let mut a = ByteReader::new(bytes.clone());
    let first = a.read_str(2);
    let second = a.read_str(3);
    let mut b = ByteReader::new(bytes);
    assert_eq!(format!("{}{}", first, second), b.read_str(5));
}
