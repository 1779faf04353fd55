use vstd::prelude::*;

verus! {

/// The ways a decode call can fail. Decoding fails fast for the field under
/// decode: no default is substituted and no malformed data is skipped.
#[derive(Clone, Copy, Debug, PartialEq, Eq, Structural)]
pub enum QvdError {
    /// The field's declared symbol-table range lies outside the buffer.
    OutOfBounds,
    /// A multi-byte numeric symbol has fewer trailing bytes than its tag requires.
    TruncatedRecord,
    /// The bytes of a string symbol are not valid UTF-8.
    InvalidEncoding,
    /// The field's bit range does not fit inside one row record.
    BitRangeConfig,
}

} // verus!
