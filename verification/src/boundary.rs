use crate::error::QvdError;
use crate::symtab::bytes_to_string;
use vstd::prelude::*;
use vstd::slice::{slice_subrange, slice_to_vec};
use vstd::utf8::{decode_utf8, valid_utf8};

verus! {

/// The position of the first NUL byte of `raw` at or after `i`, if any.
pub open spec fn first_nul_from(raw: Seq<u8>, i: int) -> Option<int>
    decreases raw.len() - i,
{
    if i >= raw.len() {
        None
    } else if raw[i] == 0 {
        Some(i)
    } else {
        first_nul_from(raw, i + 1)
    }
}

/// Where a raw QVD file's binary region starts: just past the first NUL
/// byte, which ends the XML header text. A file without a NUL is all header.
pub open spec fn binary_region_start(raw: Seq<u8>) -> int {
    match first_nul_from(raw, 0) {
        Some(p) => p + 1,
        None => raw.len() as int,
    }
}

/// Splits a raw QVD file at the delimiter that ends its XML header: the
/// bytes up to and including the first NUL byte are the header text, which
/// must be UTF-8, and everything after it is the binary region. The returned
/// offset is where the binary region starts.
pub fn split_header_region(raw: &[u8]) -> (r: Result<(String, usize), QvdError>)
    ensures
        ({
            let end = binary_region_start(raw@);
            match r {
                Ok((xml, offset)) => valid_utf8(raw@.subrange(0, end)) && xml@ == decode_utf8(
                    raw@.subrange(0, end),
                ) && offset == end,
                Err(e) => e == QvdError::InvalidEncoding && !valid_utf8(raw@.subrange(0, end)),
            }
        }),
{
    let n = raw.len();
    let mut i: usize = 0;
    while i < n && raw[i] != 0
        invariant
            i <= n,
            n == raw@.len(),
            first_nul_from(raw@, 0) == first_nul_from(raw@, i as int),
            forall|j: int| 0 <= j < i ==> raw@[j] != 0,
        decreases n - i,
    {
        i = i + 1;
    }
    let end = if i < n {
        i + 1
    } else {
        n
    };
    proof {
        if i < n {
            assert(first_nul_from(raw@, i as int) == Some(i as int));
        } else {
            assert(first_nul_from(raw@, i as int) is None);
        }
        assert(end == binary_region_start(raw@));
    }
    let header = slice_to_vec(slice_subrange(raw, 0, end));
    match bytes_to_string(header) {
        Some(xml) => Ok((xml, end)),
        None => Err(QvdError::InvalidEncoding),
    }
}

} // verus!
