use qvd::error::QvdError;
use qvd::header::FieldHeader;
use qvd::symbol::Symbol;
use qvd::symtab::decode_symbols;

fn field_over(len: usize) -> FieldHeader {
    FieldHeader {
        name: String::new(),
        offset: 0,
        length: len,
        bit_offset: 0,
        bit_width: 0,
        bias: 0,
    }
}

fn texts(syms: &[Symbol]) -> Vec<Option<String>> {
    syms.iter()
        .map(|s| match s {
            Symbol::Text(t) => Some(t.clone()),
            Symbol::Int(v) => Some(v.to_string()),
            Symbol::Double(bits) => Some(f64::from_bits(*bits).to_string()),
        })
        .collect()
}

#[test]
fn test_double() {
    let buf: Vec<u8> = vec![
        0x02, 0x00, 0x00, 0x00, 0x00, 0x00, 0x40, 0x7a, 0x40, 0x02, 0x00, 0x00, 0x00, 0x00, 0x00,
        0x50, 0x7a, 0x40,
    ];
    let field = field_over(buf.len());
    let res = decode_symbols(&buf, &field).unwrap();
    let expected: Vec<Option<String>> = vec![Some(420.0.to_string()), Some(421.0.to_string())];
    assert_eq!(expected, texts(&res));
}

#[test]
fn test_int() {
    let buf: Vec<u8> = vec![0x01, 0x0A, 0x00, 0x00, 0x00, 0x01, 0x14, 0x00, 0x00, 0x00];
    let field = field_over(buf.len());
    let res = decode_symbols(&buf, &field).unwrap();
    let expected = vec![Some(10.0.to_string()), Some(20.0.to_string())];
    assert_eq!(expected, texts(&res));
}

#[test]
fn test_mixed_numbers() {
    let buf: Vec<u8> = vec![
        0x02, 0x00, 0x00, 0x00, 0x00, 0x00, 0x40, 0x7a, 0x40,
        0x02, 0x00, 0x00, 0x00, 0x00, 0x00, 0x50, 0x7a, 0x40,
        0x01, 0x01, 0x00, 0x00, 0x00,
        0x01, 0x02, 0x00, 0x00, 0x00,
        0x05, 0x00, 0x00, 0x00, 0x00, 0x37, 0x30, 0x30, 0x30, 0x00,
        0x06, 0x00,0x00,0x00, 0x00,0x00,0x00,0x00,0x00, 0x38, 0x36, 0x35, 0x2e, 0x32, 0x00
    ];
    let field = field_over(buf.len());
    let res = decode_symbols(&buf, &field).unwrap();
    let expected: Vec<Option<String>> = vec![
        Some(420.to_string()),
        Some(421.to_string()),
        Some(1.to_string()),
        Some(2.to_string()),
        Some(7000.to_string()),
        Some(865.2.to_string()),
    ];
    assert_eq!(expected, texts(&res));
}

#[test]
fn test_string() {
    let buf: Vec<u8> = vec![
        4, 101, 120, 97, 109, 112, 108, 101, 32, 116, 101, 120, 116, 0, 4, 114, 117, 115, 116, 0,
    ];
    let field = field_over(buf.len());
    let res = decode_symbols(&buf, &field).unwrap();
    let expected = vec![Some("example text".into()), Some("rust".into())];
    assert_eq!(expected, texts(&res));
}

#[test]
fn test_utf8_string() {
    let buf: Vec<u8> = vec![
        0x04, 0xE4, 0xB9, 0x9F, 0xE6, 0x9C, 0x89, 0xE4, 0xB8, 0xAD, 0xE6, 0x96, 0x87, 0xE7,
        0xAE, 0x80, 0xE4, 0xBD, 0x93, 0xE5, 0xAD, 0x97, 0x00,
        0x04, 0xF0, 0x9F, 0x90, 0x8D, 0xF0, 0x9F, 0xA6, 0x80, 0x00,
    ];
    let field = field_over(buf.len());
    let res = decode_symbols(&buf, &field).unwrap();
    let expected = vec![Some("也有中文简体字".into()), Some("🐍🦀".into())];
    assert_eq!(expected, texts(&res));
}

#[test]
fn test_mixed_string() {
    let buf: Vec<u8> = vec![
        4, 101, 120, 97, 109, 112, 108, 101, 32, 116, 101, 120, 116, 0, 4, 114, 117, 115, 116, 0,
        5, 42, 65, 80, 1, 49, 50, 51, 52, 0, 6, 1, 1, 1, 1, 1, 1, 1, 1, 100, 111, 117, 98, 108,
        101, 0,
    ];
    let field = field_over(buf.len());
    let res = decode_symbols(&buf, &field).unwrap();
    let expected = vec![
        Some("example text".into()),
        Some("rust".into()),
        Some("1234".into()),
        Some("double".into()),
    ];
    assert_eq!(expected, texts(&res));
}

#[test]
fn invalid_utf8_is_an_error() {
    // A lone 0xFF can never appear in UTF-8 text.
    let buf: Vec<u8> = vec![4, 0xFF, 0xFE, 0];
    let field = field_over(buf.len());
    assert_eq!(Err(QvdError::InvalidEncoding), decode_symbols(&buf, &field));
}

#[test]
fn truncated_int_is_an_error() {
    let buf: Vec<u8> = vec![0x01, 0x0A, 0x00];
    let field = field_over(buf.len());
    assert_eq!(Err(QvdError::TruncatedRecord), decode_symbols(&buf, &field));
}

#[test]
fn truncated_double_is_an_error() {
    let buf: Vec<u8> = vec![0x02, 0x00, 0x00, 0x00, 0x00, 0x00, 0x40];
    let field = field_over(buf.len());
    assert_eq!(Err(QvdError::TruncatedRecord), decode_symbols(&buf, &field));
}

#[test]
fn range_outside_buffer_is_an_error() {
    let buf: Vec<u8> = vec![0x01, 0x0A, 0x00, 0x00, 0x00];
    let field = FieldHeader {
        name: String::from("f"),
        offset: 2,
        length: 4,
        bit_offset: 0,
        bit_width: 0,
        bias: 0,
    };
    assert_eq!(Err(QvdError::OutOfBounds), decode_symbols(&buf, &field));
}

#[test]
fn field_offset_shifts_the_region() {
    // Two integer symbols; the field only covers the second one.
    let buf: Vec<u8> = vec![0x01, 0x0A, 0x00, 0x00, 0x00, 0x01, 0x14, 0x00, 0x00, 0x00];
    let field = FieldHeader {
        name: String::from("f"),
        offset: 5,
        length: 5,
        bit_offset: 0,
        bit_width: 0,
        bias: 0,
    };
    let res = decode_symbols(&buf, &field).unwrap();
    assert_eq!(vec![Symbol::Int(20)], res);
}

#[test]
fn negative_int_symbol() {
    // -2 as 32-bit little-endian two's complement.
    let buf: Vec<u8> = vec![0x01, 0xFE, 0xFF, 0xFF, 0xFF];
    let field = field_over(buf.len());
    let res = decode_symbols(&buf, &field).unwrap();
    assert_eq!(vec![Symbol::Int(-2)], res);
}

#[test]
fn empty_region_decodes_to_nothing() {
    let buf: Vec<u8> = vec![];
    let field = field_over(0);
    let res = decode_symbols(&buf, &field).unwrap();
    assert!(res.is_empty());
}
