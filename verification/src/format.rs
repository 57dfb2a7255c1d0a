//! The formats that tables are stored in, told by the suffix of the file
//! name.

use crate::error::LutError;
use vstd::prelude::*;
use vstd::string::StringSliceAdditionalSpecFns;

verus! {

/// A format that tables are stored in.
#[derive(Clone, Copy, Debug, PartialEq, Eq, Structural)]
pub enum Format {
    /// Human-readable text, for names that end in `.json`.
    Json,
    /// Compact binary, for names that end in `.cbor`.
    Cbor,
}

/// The lower-case form of an ASCII letter; any other byte as it is.
pub open spec fn spec_lower(byte: u8) -> u8 {
    if 0x41 <= byte <= 0x5a {
        (byte + 0x20) as u8
    } else {
        byte
    }
}

/// The bytes of `json`.
pub open spec fn json_tag() -> Seq<u8> {
    seq![0x6au8, 0x73u8, 0x6fu8, 0x6eu8]
}

/// The bytes of `cbor`.
pub open spec fn cbor_tag() -> Seq<u8> {
    seq![0x63u8, 0x62u8, 0x6fu8, 0x72u8]
}

/// Whether `path` ends in a dot and the four letters of `tag`, in upper or
/// lower case.
pub open spec fn has_suffix(path: Seq<u8>, tag: Seq<u8>) -> bool {
    &&& tag.len() == 4
    &&& path.len() >= 5
    &&& path[path.len() - 5] == 0x2e
    &&& forall|i: int| 0 <= i < 4 ==> spec_lower(#[trigger] path[path.len() - 4 + i]) == tag[i]
}

/// The format that the suffix of `path` names, if it names one.
pub open spec fn spec_format_of(path: Seq<u8>) -> Option<Format> {
    if has_suffix(path, json_tag()) {
        Some(Format::Json)
    } else if has_suffix(path, cbor_tag()) {
        Some(Format::Cbor)
    } else {
        None
    }
}

/// The lower-case form of an ASCII letter; any other byte as it is.
pub fn lower(byte: u8) -> (r: u8)
    ensures
        r == spec_lower(byte),
{
    if 0x41 <= byte && byte <= 0x5a {
        byte + 0x20
    } else {
        byte
    }
}

/// Whether `path` ends in a dot and the four letters `tag`, in upper or lower
/// case.
fn ends_with(path: &[u8], tag: [u8; 4]) -> (r: bool)
    ensures
        r == has_suffix(path@, tag@),
{
    let len: usize = path.len();
    if len < 5 || path[len - 5] != 0x2e {
        return false;
    }
    let mut i: usize = 0;
    while i < 4
        invariant
            i <= 4,
            len == path.len(),
            len >= 5,
            forall|j: int| 0 <= j < i ==> spec_lower(#[trigger] path@[len - 4 + j]) == tag@[j],
        decreases 4 - i,
    {
        if lower(path[len - 4 + i]) != tag[i] {
            assert(spec_lower(path@[len - 4 + i]) != tag@[i as int]);
            return false;
        }
        i += 1;
    }
    true
}

/// The format in which a table is stored under the file name `path`.
///
/// Fails exactly where the name ends neither in `.json` nor in `.cbor`, in
/// upper or lower case.
pub fn format_of_path(path: &str) -> (r: Result<Format, LutError>)
    ensures
        match r {
            Ok(format) => spec_format_of(path.spec_bytes()) == Some(format),
            Err(e) => e == LutError::UnsupportedFormat && spec_format_of(path.spec_bytes())
                .is_none(),
        },
{
    let bytes = path.as_bytes();
    let json: [u8; 4] = [0x6a, 0x73, 0x6f, 0x6e];
    let cbor: [u8; 4] = [0x63, 0x62, 0x6f, 0x72];
    assert(json@ =~= json_tag());
    assert(cbor@ =~= cbor_tag());
    if ends_with(bytes, json) {
        Ok(Format::Json)
    } else if ends_with(bytes, cbor) {
        Ok(Format::Cbor)
    } else {
        Err(LutError::UnsupportedFormat)
    }
}

} // verus!
