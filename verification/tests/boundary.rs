use qvd::boundary::split_header_region;
use qvd::error::QvdError;

#[test]
fn splits_at_the_first_nul() {
    let mut raw: Vec<u8> = Vec::new();
    raw.extend_from_slice(b"<Table/>\r\n\0");
    raw.extend_from_slice(&[0x01, 0x0A, 0x00, 0x00, 0x00]);
    let (xml, offset) = split_header_region(&raw).unwrap();
    assert_eq!("<Table/>\r\n\0", xml);
    assert_eq!(11, offset);
}

#[test]
fn without_a_nul_everything_is_header() {
    let raw: Vec<u8> = b"<Table/>".to_vec();
    let (xml, offset) = split_header_region(&raw).unwrap();
    assert_eq!("<Table/>", xml);
    assert_eq!(raw.len(), offset);
}

#[test]
fn header_must_be_utf8() {
    let raw: Vec<u8> = vec![b'<', 0xFF, b'>', 0, 1, 2];
    assert_eq!(
        Err(QvdError::InvalidEncoding),
        split_header_region(&raw)
    );
}
