use vstd::prelude::*;

verus! {

/// One decoded value of a field's symbol table.
///
/// A double is kept as the bit pattern of its IEEE 754 encoding, exactly as
/// the eight little-endian payload bytes gave it: the decoder never computes
/// with the number, and a caller that needs the numeric value or its text
/// form rebuilds it from the bits.
#[derive(Debug, Clone, PartialEq)]
pub enum Symbol {
    /// A null-terminated string symbol.
    Text(String),
    /// A 32-bit signed integer symbol.
    Int(i32),
    /// A 64-bit IEEE 754 double symbol, as its bit pattern.
    Double(u64),
}

/// The mathematical value of one [`Symbol`].
pub enum SymbolModel {
    Text(Seq<char>),
    Int(int),
    Double(int),
}

impl View for Symbol {
    type V = SymbolModel;

    open spec fn view(&self) -> SymbolModel {
        match self {
            Symbol::Text(s) => SymbolModel::Text(s@),
            Symbol::Int(v) => SymbolModel::Int(*v as int),
            Symbol::Double(bits) => SymbolModel::Double(*bits as int),
        }
    }
}

impl DeepView for Symbol {
    type V = SymbolModel;

    open spec fn deep_view(&self) -> SymbolModel {
        self@
    }
}

/// The character for one decimal digit.
pub open spec fn digit_char(d: nat) -> char {
    ((48 + d) as u8) as char
}

/// The decimal digits of `n`, most significant first, without leading zeros.
pub open spec fn dec_digits(n: nat) -> Seq<char>
    decreases n,
{
    if n < 10 {
        seq![digit_char(n)]
    } else {
        dec_digits(n / 10) + seq![digit_char(n % 10)]
    }
}

/// The default decimal text form of the integer `v`: a minus sign for a
/// negative value, then the digits without leading zeros.
pub open spec fn int_text(v: int) -> Seq<char> {
    if v < 0 {
        seq!['-'] + dec_digits((-v) as nat)
    } else {
        dec_digits(v as nat)
    }
}

/// Relies on `String::push`: appends exactly the given character.
pub assume_specification[ String::push ](s: &mut String, c: char)
    ensures
        final(s)@ == old(s)@.push(c),
;

fn digit_to_char(d: u8) -> (c: char)
    requires
        d < 10,
    ensures
        c == digit_char(d as nat),
{
    (48 + d) as char
}

/// Appends the decimal digits of `n`, most significant first, to `out`.
fn push_digits(n: u32, out: &mut String)
    ensures
        final(out)@ == old(out)@ + dec_digits(n as nat),
    decreases n,
{
    if n < 10 {
        out.push(digit_to_char(n as u8));
        assert(final(out)@ =~= old(out)@ + dec_digits(n as nat));
    } else {
        push_digits(n / 10, out);
        out.push(digit_to_char((n % 10) as u8));
        assert(final(out)@ =~= old(out)@ + dec_digits(n as nat));
    }
}

/// The default decimal text of a 32-bit signed integer.
pub fn int_to_text(v: i32) -> (s: String)
    ensures
        s@ == int_text(v as int),
{
    let mut s = String::new();
    if v < 0 {
        s.push('-');
        let m: u32 = (-(v as i64)) as u32;
        assert(s@ =~= seq!['-']);
        push_digits(m, &mut s);
    } else {
        push_digits(v as u32, &mut s);
        assert(s@ =~= dec_digits(v as nat));
    }
    s
}

impl Symbol {
    /// The canonical text form used for search and comparison, where this
    /// crate can compute it: the text itself for a string symbol, the default
    /// decimal form for an integer symbol. A double's text form needs
    /// floating-point formatting, which the caller derives from the stored
    /// bit pattern.
    pub fn canonical_text(&self) -> (r: Option<String>)
        ensures
            match self@ {
                SymbolModel::Text(t) => r matches Some(s) && s@ == t,
                SymbolModel::Int(v) => r matches Some(s) && s@ == int_text(v),
                SymbolModel::Double(_) => r is None,
            },
    {
        match self {
            Symbol::Text(s) => Some(s.clone()),
            Symbol::Int(v) => Some(int_to_text(*v)),
            Symbol::Double(_) => None,
        }
    }
}

} // verus!
