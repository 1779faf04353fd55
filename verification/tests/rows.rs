use qvd::error::QvdError;
use qvd::header::FieldHeader;
use qvd::rowindex::decode_row_indexes;

fn bit_field(bit_offset: usize, bit_width: usize, bias: i32) -> FieldHeader {
    FieldHeader {
        name: String::from("name"),
        offset: 0,
        length: 0,
        bit_offset,
        bit_width,
        bias,
    }
}

#[test]
fn test_bitslice_to_vec() {
    let x: Vec<u8> = vec![
        0x00, 0x00, 0x00, 0x11, 0x01, 0x22, 0x02, 0x33, 0x13, 0x34, 0x14, 0x35,
    ];
    // The five bits at positions 27..32 in most-significant-first numbering
    // are the bits 24..29 counted from the least significant bit of the
    // record, read in the opposite order; both give the same value.
    let field = bit_field(24, 5, 0);
    let res = decode_row_indexes(&x, &field, x.len()).unwrap();
    assert_eq!(vec![17], res);
}

#[test]
fn test_get_row_indexes() {
    let buf: Vec<u8> = vec![
        0x00, 0x14, 0x00, 0x11, 0x01, 0x22, 0x02, 0x33, 0x13, 0x34, 0x24, 0x35,
    ];
    let field = bit_field(10, 3, 0);
    let record_byte_size = buf.len();
    let res = decode_row_indexes(&buf, &field, record_byte_size).unwrap();
    let expected: Vec<i64> = vec![5];
    assert_eq!(expected, res);
}

#[test]
fn one_index_per_complete_record() {
    // Ten bytes in records of four: two complete records, the partial
    // trailing record is dropped.
    let buf: Vec<u8> = vec![0xFF; 10];
    let field = bit_field(3, 2, 0);
    let res = decode_row_indexes(&buf, &field, 4).unwrap();
    assert_eq!(2, res.len());
}

#[test]
fn zero_raw_value_decodes_to_bias() {
    let buf: Vec<u8> = vec![0x00; 6];
    let field = bit_field(5, 7, -3);
    let res = decode_row_indexes(&buf, &field, 2).unwrap();
    assert_eq!(vec![-3, -3, -3], res);
}

#[test]
fn bias_shifts_the_raw_value() {
    // One record; bit 2 is set, so the single extracted bit is raw value 1.
    let buf: Vec<u8> = vec![0b0000_0100];
    let field = bit_field(2, 1, 10);
    let res = decode_row_indexes(&buf, &field, 1).unwrap();
    assert_eq!(vec![11], res);
}

#[test]
fn extraction_spans_byte_boundaries() {
    // Bits 7..11: bit 7 of byte 0 and bits 0..3 of byte 1, least
    // significant first: 1, 1, 0, 1 -> 11.
    let buf: Vec<u8> = vec![0b1000_0000, 0b0000_0101];
    let field = bit_field(7, 4, 0);
    let res = decode_row_indexes(&buf, &field, 2).unwrap();
    assert_eq!(vec![11], res);
}

#[test]
fn several_records_in_sequence() {
    // Records of one byte, low three bits of each: 1, 4, 7.
    let buf: Vec<u8> = vec![0b0000_0001, 0b0000_0100, 0b1111_1111];
    let field = bit_field(0, 3, 0);
    let res = decode_row_indexes(&buf, &field, 1).unwrap();
    assert_eq!(vec![1, 4, 7], res);
}

#[test]
fn bit_range_must_fit_in_record() {
    let buf: Vec<u8> = vec![0x00; 8];
    let field = bit_field(14, 3, 0);
    assert_eq!(
        Err(QvdError::BitRangeConfig),
        decode_row_indexes(&buf, &field, 2)
    );
}

#[test]
fn empty_buffer_has_no_rows() {
    let buf: Vec<u8> = vec![];
    let field = bit_field(0, 4, 0);
    let res = decode_row_indexes(&buf, &field, 3).unwrap();
    assert!(res.is_empty());
}
