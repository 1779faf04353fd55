use crate::error::QvdError;
use crate::symbol::{Symbol, SymbolModel};
use crate::symtab::{le_i32_at, le_u32_at, le_u64_at, symbols_from};
use vstd::prelude::*;
use vstd::utf8::{decode_utf8, encode_utf8, encode_utf8_decode_utf8, encode_utf8_valid_utf8,
    valid_utf8};

verus! {

/// A type tag of the symbol scheme. Inside string content such a byte would
/// end or retype the symbol, so an encodable text must avoid them.
pub open spec fn is_tag_byte(b: u8) -> bool {
    b == 0 || b == 1 || b == 2 || b == 4 || b == 5 || b == 6
}

/// A string symbol is encodable when none of its UTF-8 bytes collides with a
/// type tag.
pub open spec fn text_encodable(t: Seq<char>) -> bool {
    forall|j: int| 0 <= j < encode_utf8(t).len() ==> !is_tag_byte(#[trigger] encode_utf8(t)[j])
}

/// A symbol value the tag scheme can represent.
pub open spec fn encodable(m: SymbolModel) -> bool {
    match m {
        SymbolModel::Text(t) => text_encodable(t),
        SymbolModel::Int(v) => -0x8000_0000 <= v < 0x8000_0000,
        SymbolModel::Double(u) => 0 <= u < 0x1_0000_0000_0000_0000,
    }
}

/// The four little-endian bytes of the unsigned 32-bit value `u`.
pub open spec fn u32_le_bytes(u: int) -> Seq<u8> {
    let r1 = u / 0x100;
    let r2 = r1 / 0x100;
    let r3 = r2 / 0x100;
    seq![(u % 0x100) as u8, (r1 % 0x100) as u8, (r2 % 0x100) as u8, (r3 % 0x100) as u8]
}

/// The eight little-endian bytes of the unsigned 64-bit value `u`.
pub open spec fn u64_le_bytes(u: int) -> Seq<u8> {
    let r1 = u / 0x100;
    let r2 = r1 / 0x100;
    let r3 = r2 / 0x100;
    let r4 = r3 / 0x100;
    let r5 = r4 / 0x100;
    let r6 = r5 / 0x100;
    let r7 = r6 / 0x100;
    seq![
        (u % 0x100) as u8,
        (r1 % 0x100) as u8,
        (r2 % 0x100) as u8,
        (r3 % 0x100) as u8,
        (r4 % 0x100) as u8,
        (r5 % 0x100) as u8,
        (r6 % 0x100) as u8,
        (r7 % 0x100) as u8,
    ]
}

/// The byte encoding of one symbol under the tag scheme.
pub open spec fn encode_symbol_spec(m: SymbolModel) -> Seq<u8> {
    match m {
        SymbolModel::Text(t) => seq![4u8] + encode_utf8(t) + seq![0u8],
        SymbolModel::Int(v) => seq![1u8] + u32_le_bytes(
            if v < 0 {
                v + 0x1_0000_0000
            } else {
                v
            },
        ),
        SymbolModel::Double(u) => seq![2u8] + u64_le_bytes(u),
    }
}

/// The byte encoding of a sequence of symbols: the symbols one after the
/// other, in order.
pub open spec fn encode_symbols_spec(syms: Seq<SymbolModel>) -> Seq<u8>
    decreases syms.len(),
{
    if syms.len() == 0 {
        Seq::empty()
    } else {
        encode_symbol_spec(syms[0]) + encode_symbols_spec(syms.drop_first())
    }
}

/// Reading four little-endian bytes back gives the value they were made of.
proof fn lemma_le_u32_of_bytes(buf: Seq<u8>, i: int, u: int)
    requires
        0 <= u < 0x1_0000_0000,
        0 <= i,
        i + 4 <= buf.len(),
        forall|j: int| 0 <= j < 4 ==> buf[i + j] == #[trigger] u32_le_bytes(u)[j],
    ensures
        le_u32_at(buf, i) == u,
{
    assert(buf[i + 0] == u32_le_bytes(u)[0]);
    assert(buf[i + 1] == u32_le_bytes(u)[1]);
    assert(buf[i + 2] == u32_le_bytes(u)[2]);
    assert(buf[i + 3] == u32_le_bytes(u)[3]);
}

/// Reading eight little-endian bytes back gives the value they were made of.
proof fn lemma_le_u64_of_bytes(buf: Seq<u8>, i: int, u: int)
    requires
        0 <= u < 0x1_0000_0000_0000_0000,
        0 <= i,
        i + 8 <= buf.len(),
        forall|j: int| 0 <= j < 8 ==> buf[i + j] == #[trigger] u64_le_bytes(u)[j],
    ensures
        le_u64_at(buf, i) == u,
{
    assert(buf[i + 0] == u64_le_bytes(u)[0]);
    assert(buf[i + 1] == u64_le_bytes(u)[1]);
    assert(buf[i + 2] == u64_le_bytes(u)[2]);
    assert(buf[i + 3] == u64_le_bytes(u)[3]);
    assert(buf[i + 4] == u64_le_bytes(u)[4]);
    assert(buf[i + 5] == u64_le_bytes(u)[5]);
    assert(buf[i + 6] == u64_le_bytes(u)[6]);
    assert(buf[i + 7] == u64_le_bytes(u)[7]);
}

/// Scanning over bytes that are no type tags moves the cursor without
/// emitting a symbol or touching the pending string start.
proof fn lemma_scan_content_bytes(buf: Seq<u8>, i: int, end: int, ss: int, k: int)
    requires
        0 <= i,
        0 <= k,
        i + k <= end <= buf.len(),
        forall|j: int| i <= j < i + k ==> !is_tag_byte(#[trigger] buf[j]),
    ensures
        symbols_from(buf, i, end, ss) == symbols_from(buf, i + k, end, ss),
    decreases k,
{
    if k > 0 {
        assert(!is_tag_byte(buf[i]));
        lemma_scan_content_bytes(buf, i + 1, end, ss, k - 1);
    }
}

/// Decoding a region that holds exactly the encoding of `syms` yields
/// `syms`, whatever pending string start the scan arrives with.
#[verifier::rlimit(60)]
proof fn lemma_decode_encoded(buf: Seq<u8>, i: int, end: int, ss: int, syms: Seq<SymbolModel>)
    requires
        0 <= i <= end <= buf.len(),
        forall|k: int| 0 <= k < syms.len() ==> encodable(#[trigger] syms[k]),
        buf.subrange(i, end) == encode_symbols_spec(syms),
    ensures
        symbols_from(buf, i, end, ss) == Ok::<Seq<SymbolModel>, QvdError>(syms),
    decreases syms.len(),
{
    if syms.len() == 0 {
        assert(end - i == 0);
        assert(syms =~= Seq::<SymbolModel>::empty());
    } else {
        let m = syms[0];
        let rest = syms.drop_first();
        let enc = encode_symbol_spec(m);
        let l = enc.len() as int;
        assert(encode_symbols_spec(syms) == enc + encode_symbols_spec(rest));
        assert(end - i == enc.len() + encode_symbols_spec(rest).len());
        assert(buf.subrange(i + l, end) =~= encode_symbols_spec(rest)) by {
            assert(forall|j: int|
                0 <= j < end - (i + l) ==> #[trigger] buf.subrange(i + l, end)[j]
                    == buf.subrange(i, end)[j + l]);
        }
        assert forall|j: int| 0 <= j < l implies buf[i + j] == #[trigger] enc[j] by {
            assert(buf.subrange(i, end)[j] == buf[i + j]);
            assert(buf.subrange(i, end)[j] == enc[j]);
        };
        lemma_decode_encoded(buf, i + l, end, ss, rest);
        assert(syms =~= seq![m] + rest);
        match m {
            SymbolModel::Int(v) => {
                let u = if v < 0 {
                    v + 0x1_0000_0000
                } else {
                    v
                };
                assert(buf[i] == enc[0] && enc[0] == 1);
                assert forall|j: int| 0 <= j < 4 implies buf[i + 1 + j] == #[trigger] u32_le_bytes(
                    u,
                )[j] by {
                    assert(buf[i + (1 + j)] == enc[1 + j]);
                    assert(enc[1 + j] == u32_le_bytes(u)[j]);
                };
                lemma_le_u32_of_bytes(buf, i + 1, u);
                assert(le_i32_at(buf, i + 1) == v);
                assert(symbols_from(buf, i, end, ss) == Ok::<Seq<SymbolModel>, QvdError>(syms));
            },
            SymbolModel::Double(u) => {
                assert(buf[i] == enc[0] && enc[0] == 2);
                assert forall|j: int| 0 <= j < 8 implies buf[i + 1 + j] == #[trigger] u64_le_bytes(
                    u,
                )[j] by {
                    assert(buf[i + (1 + j)] == enc[1 + j]);
                    assert(enc[1 + j] == u64_le_bytes(u)[j]);
                };
                lemma_le_u64_of_bytes(buf, i + 1, u);
                assert(symbols_from(buf, i, end, ss) == Ok::<Seq<SymbolModel>, QvdError>(syms));
            },
            SymbolModel::Text(t) => {
                let eb = encode_utf8(t);
                let n = eb.len() as int;
                assert(buf[i] == enc[0] && enc[0] == 4);
                assert forall|j: int| 0 <= j < n implies buf[i + 1 + j] == #[trigger] eb[j] by {
                    assert(buf[i + (1 + j)] == enc[1 + j]);
                    assert(enc[1 + j] == eb[j]);
                };
                assert(buf[i + 1 + n] == 0) by {
                    assert(buf[i + (1 + n)] == enc[1 + n]);
                    assert(enc[1 + n] == 0);
                }
                assert(symbols_from(buf, i, end, ss) == symbols_from(buf, i + 1, end, i + 1));
                assert forall|j: int| i + 1 <= j < i + 1 + n implies !is_tag_byte(
                    #[trigger] buf[j],
                ) by {
                    assert(buf[j] == eb[j - i - 1]);
                    assert(!is_tag_byte(eb[j - i - 1]));
                };
                lemma_scan_content_bytes(buf, i + 1, end, i + 1, n);
                assert(buf.subrange(i + 1, i + 1 + n) =~= eb);
                encode_utf8_valid_utf8(t);
                encode_utf8_decode_utf8(t);
                assert(valid_utf8(buf.subrange(i + 1, i + 1 + n)));
                assert(decode_utf8(buf.subrange(i + 1, i + 1 + n)) == t);
                lemma_decode_encoded(buf, i + l, end, i + 1, rest);
                assert(i + 1 + n + 1 == i + l);
                assert(symbols_from(buf, i + 1 + n, end, i + 1) == Ok::<
                    Seq<SymbolModel>,
                    QvdError,
                >(seq![m] + rest));
                assert(symbols_from(buf, i, end, ss) == Ok::<Seq<SymbolModel>, QvdError>(syms));
            },
        }
    }
}

/// Invalid UTF-8 between a string-start tag and its terminator makes the
/// scan of that region fail with `InvalidEncoding`: no lossily substituted
/// string is ever returned.
pub proof fn lemma_invalid_text_raises(buf: Seq<u8>, i: int, end: int, ss: int, n: int)
    requires
        0 <= i,
        0 <= n,
        i + n + 2 <= end <= buf.len(),
        buf[i] == 4,
        forall|j: int| i + 1 <= j < i + 1 + n ==> !is_tag_byte(#[trigger] buf[j]),
        buf[i + 1 + n] == 0,
        !valid_utf8(buf.subrange(i + 1, i + 1 + n)),
    ensures
        symbols_from(buf, i, end, ss) == Err::<Seq<SymbolModel>, QvdError>(
            QvdError::InvalidEncoding,
        ),
{
    lemma_scan_content_bytes(buf, i + 1, end, i + 1, n);
}

/// Round trip: decoding the tag-scheme encoding of any encodable sequence of
/// symbols reproduces exactly that sequence, in order.
pub proof fn lemma_encode_then_decode(syms: Seq<SymbolModel>)
    requires
        forall|k: int| 0 <= k < syms.len() ==> encodable(#[trigger] syms[k]),
    ensures
        symbols_from(
            encode_symbols_spec(syms),
            0,
            encode_symbols_spec(syms).len() as int,
            0,
        ) == Ok::<Seq<SymbolModel>, QvdError>(syms),
{
    let buf = encode_symbols_spec(syms);
    assert(buf.subrange(0, buf.len() as int) =~= buf);
    lemma_decode_encoded(buf, 0, buf.len() as int, 0, syms);
}

/// Appending one symbol appends its encoding.
proof fn lemma_encode_symbols_snoc(s: Seq<SymbolModel>, m: SymbolModel)
    ensures
        encode_symbols_spec(s.push(m)) == encode_symbols_spec(s) + encode_symbol_spec(m),
    decreases s.len(),
{
    if s.len() == 0 {
        assert(s.push(m).drop_first() =~= s);
        assert(encode_symbols_spec(s.push(m)) =~= encode_symbols_spec(s) + encode_symbol_spec(m));
    } else {
        assert(s.push(m).drop_first() =~= s.drop_first().push(m));
        lemma_encode_symbols_snoc(s.drop_first(), m);
        assert(encode_symbols_spec(s.push(m)) =~= encode_symbols_spec(s) + encode_symbol_spec(m));
    }
}

/// Appends the four little-endian bytes of `u` to `out`.
fn push_u32_le(out: &mut Vec<u8>, u: u32)
    ensures
        final(out)@ == old(out)@ + u32_le_bytes(u as int),
{
    let r1 = u / 0x100;
    let r2 = r1 / 0x100;
    let r3 = r2 / 0x100;
    out.push((u % 0x100) as u8);
    out.push((r1 % 0x100) as u8);
    out.push((r2 % 0x100) as u8);
    out.push((r3 % 0x100) as u8);
    assert(final(out)@ =~= old(out)@ + u32_le_bytes(u as int));
}

/// Appends the eight little-endian bytes of `u` to `out`.
fn push_u64_le(out: &mut Vec<u8>, u: u64)
    ensures
        final(out)@ == old(out)@ + u64_le_bytes(u as int),
{
    let r1 = u / 0x100;
    let r2 = r1 / 0x100;
    let r3 = r2 / 0x100;
    let r4 = r3 / 0x100;
    let r5 = r4 / 0x100;
    let r6 = r5 / 0x100;
    let r7 = r6 / 0x100;
    out.push((u % 0x100) as u8);
    out.push((r1 % 0x100) as u8);
    out.push((r2 % 0x100) as u8);
    out.push((r3 % 0x100) as u8);
    out.push((r4 % 0x100) as u8);
    out.push((r5 % 0x100) as u8);
    out.push((r6 % 0x100) as u8);
    out.push((r7 % 0x100) as u8);
    assert(final(out)@ =~= old(out)@ + u64_le_bytes(u as int));
}

/// Encodes a sequence of symbols under the tag scheme, or reports that some
/// string symbol cannot be represented because one of its UTF-8 bytes would
/// collide with a type tag.
pub fn encode_symbols(syms: &Vec<Symbol>) -> (r: Option<Vec<u8>>)
    ensures
        match r {
            Some(bytes) => {
                &&& forall|k: int|
                    0 <= k < syms.deep_view().len() ==> encodable(#[trigger] syms.deep_view()[k])
                &&& bytes@ == encode_symbols_spec(syms.deep_view())
            },
            None => exists|k: int|
                0 <= k < syms.deep_view().len() && !encodable(#[trigger] syms.deep_view()[k]),
        },
{
    let mut out: Vec<u8> = Vec::new();
    let mut idx: usize = 0;
    proof {
        assert(syms.deep_view().take(0) =~= Seq::<SymbolModel>::empty());
    }
    while idx < syms.len()
        invariant
            idx <= syms.len(),
            syms.deep_view().len() == syms@.len(),
            forall|k: int| 0 <= k < idx ==> encodable(#[trigger] syms.deep_view()[k]),
            out@ == encode_symbols_spec(syms.deep_view().take(idx as int)),
        decreases syms.len() - idx,
    {
        let ghost prefix = syms.deep_view().take(idx as int);
        let ghost model = syms.deep_view()[idx as int];
        match &syms[idx] {
            Symbol::Text(s) => {
                let bytes = s.as_str().as_bytes_vec();
                let mut j: usize = 0;
                while j < bytes.len()
                    invariant
                        idx < syms@.len(),
                        syms.deep_view().len() == syms@.len(),
                        model == syms.deep_view()[idx as int],
                        model == SymbolModel::Text(s@),
                        j <= bytes@.len(),
                        bytes@ == encode_utf8(s@),
                        forall|x: int| 0 <= x < j ==> !is_tag_byte(#[trigger] bytes@[x]),
                    decreases bytes@.len() - j,
                {
                    let b = bytes[j];
                    if b == 0 || b == 1 || b == 2 || b == 4 || b == 5 || b == 6 {
                        proof {
                            assert(is_tag_byte(encode_utf8(s@)[j as int]));
                            assert(!text_encodable(s@));
                            assert(!encodable(syms.deep_view()[idx as int]));
                        }
                        return None;
                    }
                    j = j + 1;
                }
                let ghost before = out@;
                out.push(4);
                let mut body = bytes;
                out.append(&mut body);
                out.push(0);
                proof {
                    assert(out@ =~= before + encode_symbol_spec(model));
                }
            },
            Symbol::Int(v) => {
                let u: u32 = if *v >= 0 {
                    *v as u32
                } else {
                    ((*v as i64) + 0x1_0000_0000) as u32
                };
                let ghost before = out@;
                out.push(1);
                push_u32_le(&mut out, u);
                proof {
                    assert(out@ =~= before + encode_symbol_spec(model));
                }
            },
            Symbol::Double(bits) => {
                let ghost before = out@;
                out.push(2);
                push_u64_le(&mut out, *bits);
                proof {
                    assert(out@ =~= before + encode_symbol_spec(model));
                }
            },
        }
        proof {
            assert(syms.deep_view().take(idx + 1) =~= prefix.push(model));
            lemma_encode_symbols_snoc(prefix, model);
        }
        idx = idx + 1;
    }
    proof {
        assert(syms.deep_view().take(syms@.len() as int) =~= syms.deep_view());
    }
    Some(out)
}

} // verus!
