use crate::error::QvdError;
use crate::header::FieldHeader;
use crate::symbol::{Symbol, SymbolModel};
use vstd::prelude::*;
use vstd::slice::{slice_subrange, slice_to_vec};
use vstd::utf8::{decode_utf8, valid_utf8};

verus! {

/// The unsigned value of the four little-endian bytes at `i`.
pub open spec fn le_u32_at(buf: Seq<u8>, i: int) -> int {
    buf[i] + 0x100 * buf[i + 1] + 0x1_0000 * buf[i + 2] + 0x100_0000 * buf[i + 3]
}

/// The signed 32-bit value of the four little-endian bytes at `i`.
pub open spec fn le_i32_at(buf: Seq<u8>, i: int) -> int {
    if le_u32_at(buf, i) < 0x8000_0000 {
        le_u32_at(buf, i)
    } else {
        le_u32_at(buf, i) - 0x1_0000_0000
    }
}

/// The unsigned value of the eight little-endian bytes at `i`.
pub open spec fn le_u64_at(buf: Seq<u8>, i: int) -> int {
    buf[i] + 0x100 * buf[i + 1] + 0x1_0000 * buf[i + 2] + 0x100_0000 * buf[i + 3]
        + 0x1_0000_0000 * buf[i + 4] + 0x100_0000_0000 * buf[i + 5] + 0x1_0000_0000_0000 * buf[
        i + 6
    ] + 0x100_0000_0000_0000 * buf[i + 7]
}

/// Prepends one emitted symbol to the decode of the remaining bytes.
pub open spec fn prepend(
    m: SymbolModel,
    rest: Result<Seq<SymbolModel>, QvdError>,
) -> Result<Seq<SymbolModel>, QvdError> {
    match rest {
        Ok(s) => Ok(seq![m] + s),
        Err(e) => Err(e),
    }
}

/// The symbols encoded in `buf[i .. end)`, scanned with a pending string
/// start at `ss`. Each byte at the cursor is a type tag: 0 ends the string
/// pending since `ss` (its bytes must be valid UTF-8), 1 is followed by a
/// 4-byte little-endian signed integer, 2 by an 8-byte little-endian double,
/// 4 starts a string, 5 and 6 skip 4 or 8 reserved bytes and then start a
/// string, and every other byte is ordinary string content. An integer or
/// double tag with fewer trailing bytes than it needs, before `end`, is a
/// truncated record.
pub open spec fn symbols_from(buf: Seq<u8>, i: int, end: int, ss: int) -> Result<
    Seq<SymbolModel>,
    QvdError,
>
    decreases end - i,
{
    if i >= end {
        Ok(Seq::empty())
    } else {
        let b = buf[i];
        if b == 0 {
            if valid_utf8(buf.subrange(ss, i)) {
                prepend(
                    SymbolModel::Text(decode_utf8(buf.subrange(ss, i))),
                    symbols_from(buf, i + 1, end, ss),
                )
            } else {
                Err(QvdError::InvalidEncoding)
            }
        } else if b == 1 {
            if end - i < 5 {
                Err(QvdError::TruncatedRecord)
            } else {
                prepend(SymbolModel::Int(le_i32_at(buf, i + 1)), symbols_from(buf, i + 5, end, ss))
            }
        } else if b == 2 {
            if end - i < 9 {
                Err(QvdError::TruncatedRecord)
            } else {
                prepend(
                    SymbolModel::Double(le_u64_at(buf, i + 1)),
                    symbols_from(buf, i + 9, end, ss),
                )
            }
        } else if b == 4 {
            symbols_from(buf, i + 1, end, i + 1)
        } else if b == 5 {
            if i + 5 <= end {
                symbols_from(buf, i + 5, end, i + 5)
            } else {
                Ok(Seq::empty())
            }
        } else if b == 6 {
            if i + 9 <= end {
                symbols_from(buf, i + 9, end, i + 9)
            } else {
                Ok(Seq::empty())
            }
        } else {
            symbols_from(buf, i + 1, end, ss)
        }
    }
}

/// What `decode_symbols` returns, as a function of the buffer and the field.
pub open spec fn decode_symbols_spec(buf: Seq<u8>, field: FieldHeader) -> Result<
    Seq<SymbolModel>,
    QvdError,
> {
    if !field.table_in_bounds(buf.len()) {
        Err(QvdError::OutOfBounds)
    } else {
        symbols_from(buf, field.offset as int, field.offset + field.length, 0)
    }
}

/// The whole decode result, given the symbols already emitted and the decode
/// of the remaining bytes.
spec fn combine(
    done: Seq<SymbolModel>,
    rest: Result<Seq<SymbolModel>, QvdError>,
) -> Result<Seq<SymbolModel>, QvdError> {
    match rest {
        Ok(s) => Ok(done + s),
        Err(e) => Err(e),
    }
}

proof fn lemma_combine_prepend(
    done: Seq<SymbolModel>,
    m: SymbolModel,
    rest: Result<Seq<SymbolModel>, QvdError>,
)
    ensures
        combine(done, prepend(m, rest)) == combine(done.push(m), rest),
{
    match rest {
        Ok(s) => {
            assert(done + (seq![m] + s) =~= done.push(m) + s);
        },
        Err(_) => {},
    }
}

/// Relies on `String::from_utf8`: returns the string exactly when the bytes
/// are valid UTF-8, and its characters are the UTF-8 decoding of the bytes.
#[verifier::external_body]
pub(crate) fn bytes_to_string(bytes: Vec<u8>) -> (r: Option<String>)
    ensures
        r is Some <==> valid_utf8(bytes@),
        r matches Some(s) ==> s@ == decode_utf8(bytes@),
{
    String::from_utf8(bytes).ok()
}

/// Reads the signed 32-bit little-endian value whose bytes start at `i`.
fn read_le_i32(buf: &[u8], i: usize) -> (v: i32)
    requires
        i + 4 <= buf@.len(),
    ensures
        v as int == le_i32_at(buf@, i as int),
{
    let u: u32 = buf[i] as u32 + 0x100 * (buf[i + 1] as u32) + 0x1_0000 * (buf[i + 2] as u32)
        + 0x100_0000 * (buf[i + 3] as u32);
    if u < 0x8000_0000 {
        u as i32
    } else {
        i32::MIN + ((u - 0x8000_0000) as i32)
    }
}

/// Reads the unsigned 64-bit little-endian value whose bytes start at `i`.
fn read_le_u64(buf: &[u8], i: usize) -> (v: u64)
    requires
        i + 8 <= buf@.len(),
    ensures
        v as int == le_u64_at(buf@, i as int),
{
    buf[i] as u64 + 0x100 * (buf[i + 1] as u64) + 0x1_0000 * (buf[i + 2] as u64) + 0x100_0000 * (
    buf[i + 3] as u64) + 0x1_0000_0000 * (buf[i + 4] as u64) + 0x100_0000_0000 * (buf[i + 5] as u64)
        + 0x1_0000_0000_0000 * (buf[i + 6] as u64) + 0x100_0000_0000_0000 * (buf[i + 7] as u64)
}

/// Decodes the ordered symbol table of one field from the binary region.
///
/// The symbols come out in file order; that order is the index space the row
/// index table refers to. The call fails, and decodes nothing, when the
/// field's declared range lies outside the buffer, when an integer or double
/// tag is truncated by the end of the range, or when a string's bytes are not
/// valid UTF-8.
pub fn decode_symbols(buf: &[u8], field: &FieldHeader) -> (r: Result<Vec<Symbol>, QvdError>)
    ensures
        match r {
            Ok(syms) => decode_symbols_spec(buf@, *field) == Ok::<Seq<SymbolModel>, QvdError>(
                syms.deep_view(),
            ),
            Err(e) => decode_symbols_spec(buf@, *field) == Err::<Seq<SymbolModel>, QvdError>(e),
        },
{
    let n = buf.len();
    if field.length > n || field.offset > n - field.length {
        return Err(QvdError::OutOfBounds);
    }
    let start = field.offset;
    let end = field.offset + field.length;
    let ghost whole = symbols_from(buf@, start as int, end as int, 0);
    let mut out: Vec<Symbol> = Vec::new();
    let mut i = start;
    let mut ss: usize = 0;
    proof {
        assert(combine(out.deep_view(), whole) == whole) by {
            match whole {
                Ok(s) => {
                    assert(out.deep_view() + s =~= s);
                },
                Err(_) => {},
            }
        }
    }
    while i < end
        invariant
            start == field.offset,
            end == field.offset + field.length,
            end <= buf@.len(),
            i <= end,
            ss <= i,
            whole == symbols_from(buf@, start as int, end as int, 0),
            whole == decode_symbols_spec(buf@, *field),
            combine(out.deep_view(), symbols_from(buf@, i as int, end as int, ss as int)) == whole,
        decreases end - i,
    {
        let ghost rest = symbols_from(buf@, i as int, end as int, ss as int);
        let ghost prev = out.deep_view();
        let b = buf[i];
        if b == 0 {
            let bytes = slice_to_vec(slice_subrange(buf, ss, i));
            match bytes_to_string(bytes) {
                Some(s) => {
                    proof {
                        lemma_combine_prepend(
                            prev,
                            SymbolModel::Text(decode_utf8(buf@.subrange(ss as int, i as int))),
                            symbols_from(buf@, i + 1, end as int, ss as int),
                        );
                    }
                    out.push(Symbol::Text(s));
                    proof {
                        assert(out.deep_view() =~= prev.push(
                            SymbolModel::Text(decode_utf8(buf@.subrange(ss as int, i as int))),
                        ));
                    }
                    i = i + 1;
                },
                None => {
                    return Err(QvdError::InvalidEncoding);
                },
            }
        } else if b == 1 {
            if end - i < 5 {
                return Err(QvdError::TruncatedRecord);
            }
            let v = read_le_i32(buf, i + 1);
            proof {
                lemma_combine_prepend(
                    prev,
                    SymbolModel::Int(le_i32_at(buf@, i + 1)),
                    symbols_from(buf@, i + 5, end as int, ss as int),
                );
            }
            out.push(Symbol::Int(v));
            proof {
                assert(out.deep_view() =~= prev.push(SymbolModel::Int(le_i32_at(buf@, i + 1))));
            }
            i = i + 5;
        } else if b == 2 {
            if end - i < 9 {
                return Err(QvdError::TruncatedRecord);
            }
            let v = read_le_u64(buf, i + 1);
            proof {
                lemma_combine_prepend(
                    prev,
                    SymbolModel::Double(le_u64_at(buf@, i + 1)),
                    symbols_from(buf@, i + 9, end as int, ss as int),
                );
            }
            out.push(Symbol::Double(v));
            proof {
                assert(out.deep_view() =~= prev.push(SymbolModel::Double(le_u64_at(buf@, i + 1))));
            }
            i = i + 9;
        } else if b == 4 {
            i = i + 1;
            ss = i;
        } else if b == 5 {
            i = if end - i < 5 {
                end
            } else {
                i + 5
            };
            ss = i;
        } else if b == 6 {
            i = if end - i < 9 {
                end
            } else {
                i + 9
            };
            ss = i;
        } else {
            i = i + 1;
        }
    }
    proof {
        assert(symbols_from(buf@, i as int, end as int, ss as int) == Ok::<
            Seq<SymbolModel>,
            QvdError,
        >(Seq::empty()));
        assert(out.deep_view() + Seq::<SymbolModel>::empty() =~= out.deep_view());
    }
    Ok(out)
}

/// The number of logical symbols the region `[i, end)` encodes: each tag-0
/// terminator ends one string, and each integer or double tag is one number.
pub open spec fn logical_symbol_count(buf: Seq<u8>, i: int, end: int) -> nat
    decreases end - i,
{
    if i >= end {
        0
    } else {
        let b = buf[i];
        if b == 0 {
            1 + logical_symbol_count(buf, i + 1, end)
        } else if b == 1 {
            if end - i < 5 {
                0
            } else {
                1 + logical_symbol_count(buf, i + 5, end)
            }
        } else if b == 2 {
            if end - i < 9 {
                0
            } else {
                1 + logical_symbol_count(buf, i + 9, end)
            }
        } else if b == 4 {
            logical_symbol_count(buf, i + 1, end)
        } else if b == 5 {
            if i + 5 <= end {
                logical_symbol_count(buf, i + 5, end)
            } else {
                0
            }
        } else if b == 6 {
            if i + 9 <= end {
                logical_symbol_count(buf, i + 9, end)
            } else {
                0
            }
        } else {
            logical_symbol_count(buf, i + 1, end)
        }
    }
}

/// Every successful scan yields exactly one symbol per logical symbol the
/// region encodes.
pub proof fn lemma_symbols_from_length(buf: Seq<u8>, i: int, end: int, ss: int)
    requires
        symbols_from(buf, i, end, ss) is Ok,
    ensures
        symbols_from(buf, i, end, ss)->Ok_0.len() == logical_symbol_count(buf, i, end),
    decreases end - i,
{
    if i >= end {
    } else {
        let b = buf[i];
        if b == 0 {
            lemma_symbols_from_length(buf, i + 1, end, ss);
        } else if b == 1 {
            if end - i >= 5 {
                lemma_symbols_from_length(buf, i + 5, end, ss);
            }
        } else if b == 2 {
            if end - i >= 9 {
                lemma_symbols_from_length(buf, i + 9, end, ss);
            }
        } else if b == 4 {
            lemma_symbols_from_length(buf, i + 1, end, i + 1);
        } else if b == 5 {
            if i + 5 <= end {
                lemma_symbols_from_length(buf, i + 5, end, i + 5);
            }
        } else if b == 6 {
            if i + 9 <= end {
                lemma_symbols_from_length(buf, i + 9, end, i + 9);
            }
        } else {
            lemma_symbols_from_length(buf, i + 1, end, ss);
        }
    }
}

/// For every well-formed buffer, the decoded symbol table of a field has
/// exactly one entry per logical symbol its region encodes.
pub proof fn lemma_decode_symbols_length(buf: Seq<u8>, field: FieldHeader)
    requires
        decode_symbols_spec(buf, field) is Ok,
    ensures
        decode_symbols_spec(buf, field)->Ok_0.len() == logical_symbol_count(
            buf,
            field.offset as int,
            field.offset + field.length,
        ),
{
    lemma_symbols_from_length(buf, field.offset as int, field.offset + field.length, 0);
}

} // verus!

