//! SHA-256 content digests.
use crate::entry::FileEntry;
use sha2::Digest;
use vstd::prelude::*;

verus! {

/// The lowercase hexadecimal SHA-256 digest of a byte sequence.
pub uninterp spec fn sha256_hex(data: Seq<u8>) -> Seq<char>;

/// A lowercase hexadecimal digit.
pub open spec fn is_hex_digit(c: char) -> bool {
    ('0' <= c && c <= '9') || ('a' <= c && c <= 'f')
}

/// Relies on `sha2::Sha256::digest` printed with `{:x}`: the lowercase hex
/// digest of `data`, which depends on the bytes alone. The digest has 32
/// bytes and `{:x}` writes two digits for each.
#[verifier::external_body]
fn sha256_hex_of(data: &[u8]) -> (r: String)
    ensures
        r@ == sha256_hex(data@),
        r@.len() == 64,
        forall|i: int| 0 <= i < r@.len() ==> is_hex_digit(#[trigger] r@[i]),
{
    format!("{:x}", sha2::Sha256::digest(data))
}

/// The record of the file at `path` whose full contents are `data`.
pub fn record_of(path: String, data: &[u8]) -> (e: FileEntry)
    requires
        data@.len() <= u64::MAX,
    ensures
        e.path@ == path@,
        e.size == data@.len(),
        e.checksum@ == sha256_hex(data@),
        e.checksum@.len() == 64,
        forall|i: int| 0 <= i < e.checksum@.len() ==> is_hex_digit(#[trigger] e.checksum@[i]),
{
    let checksum = sha256_hex_of(data);
    FileEntry { path, size: data.len() as u64, checksum }
}

} // verus!
