use qvd::codec::encode_symbols;
use qvd::header::FieldHeader;
use qvd::symbol::Symbol;
use qvd::symtab::decode_symbols;

fn field_over(len: usize) -> FieldHeader {
    FieldHeader {
        name: String::new(),
        offset: 0,
        length: len,
        bit_offset: 0,
        bit_width: 0,
        bias: 0,
    }
}

#[test]
fn encode_then_decode_reproduces_the_symbols() {
    let syms = vec![
        Symbol::Text("example text".into()),
        Symbol::Int(-42),
        Symbol::Double(420.0f64.to_bits()),
        Symbol::Text("也有中文".into()),
        Symbol::Int(0),
    ];
    let bytes = encode_symbols(&syms).unwrap();
    let field = field_over(bytes.len());
    let decoded = decode_symbols(&bytes, &field).unwrap();
    assert_eq!(syms, decoded);
}

#[test]
fn encoded_int_uses_the_tag_scheme() {
    let bytes = encode_symbols(&vec![Symbol::Int(10)]).unwrap();
    assert_eq!(vec![0x01, 0x0A, 0x00, 0x00, 0x00], bytes);
}

#[test]
fn text_with_a_tag_byte_is_not_encodable() {
    let syms = vec![Symbol::Text("\u{1}bad".into())];
    assert_eq!(None, encode_symbols(&syms));
}

#[test]
fn canonical_text_of_symbols() {
    assert_eq!(
        Some("example text".to_string()),
        Symbol::Text("example text".into()).canonical_text()
    );
    assert_eq!(Some("0".to_string()), Symbol::Int(0).canonical_text());
    assert_eq!(Some("-42".to_string()), Symbol::Int(-42).canonical_text());
    assert_eq!(
        Some("-2147483648".to_string()),
        Symbol::Int(i32::MIN).canonical_text()
    );
    assert_eq!(
        Some("2147483647".to_string()),
        Symbol::Int(i32::MAX).canonical_text()
    );
    assert_eq!(None, Symbol::Double(420.0f64.to_bits()).canonical_text());
}
