use vstd::prelude::*;
use sha2::Digest;

verus! {

/// The lowercase hex SHA-256 digest of a byte sequence.
pub uninterp spec fn sha256_hex(data: Seq<u8>) -> Seq<char>;

/// A lowercase hexadecimal digit.
pub open spec fn is_hex_digit(c: char) -> bool {
    ('0' <= c && c <= '9') || ('a' <= c && c <= 'f')
}

/// The shape of every object id: 64 lowercase hex digits.
pub open spec fn is_oid(s: Seq<char>) -> bool {
    &&& s.len() == 64
    &&& forall|i: int| 0 <= i < s.len() ==> #[trigger] is_hex_digit(s[i])
}

/// Relies on sha2::Sha256::digest and the `{:x}` formatting of its output
/// array: two lowercase hex digits for each of the 32 digest bytes.
#[verifier::external_body]
fn sha256_digest_hex(data: &[u8]) -> (r: String)
    ensures
        r@ == sha256_hex(data@),
        is_oid(r@),
{
    format!("{:x}", sha2::Sha256::digest(data))
}

/// The object id of a byte slice.
pub fn hash_slice(data: &[u8]) -> (r: String)
    ensures
        r@ == sha256_hex(data@),
        is_oid(r@),
{
    sha256_digest_hex(data)
}

/// The object id of a payload: its SHA-256 digest in lowercase hex.
pub fn hash(data: &Vec<u8>) -> (r: String)
    ensures
        r@ == sha256_hex(data@),
        is_oid(r@),
{
    sha256_digest_hex(data.as_slice())
}

} // verus!
