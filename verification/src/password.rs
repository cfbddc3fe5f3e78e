//! Passwords of protected channels: only a one-way hash is ever kept.

use sha2::{Digest, Sha256};
use vstd::prelude::*;

verus! {

/// The SHA-256 digest of a byte string.
pub uninterp spec fn sha256(data: Seq<u8>) -> Seq<u8>;

/// The lower-case hexadecimal digit for `n`, which is below sixteen.
pub open spec fn hex_digit(n: int) -> char {
    if n < 10 {
        ((48 + n) as u8) as char
    } else {
        ((87 + n) as u8) as char
    }
}

/// `data` in lower-case hexadecimal: two digits for each byte, the high half
/// first.
pub open spec fn hex_lower(data: Seq<u8>) -> Seq<char> {
    Seq::new(
        2 * data.len(),
        |i: int|
            if i % 2 == 0 {
                hex_digit(data[i / 2] as int / 16)
            } else {
                hex_digit(data[i / 2] as int % 16)
            },
    )
}

/// What is kept in place of a password: the hexadecimal form of the SHA-256
/// digest of its UTF-8 bytes.
pub open spec fn password_hash(password: Seq<char>) -> Seq<char> {
    hex_lower(sha256(vstd::utf8::encode_utf8(password)))
}

/// `Sha256::digest` of the crate `sha2`: the digest of `data`. The contract
/// gives the digest a name and claims that it depends on `data` alone and
/// has 32 bytes.
#[verifier::external_body]
fn sha256_digest(data: &[u8]) -> (r: Vec<u8>)
    ensures
        r@ == sha256(data@),
        r@.len() == 32,
{
    Sha256::digest(data).to_vec()
}

/// `hex::encode` of the crate `hex`: each byte of `data` as two lower-case
/// hexadecimal digits, in order.
#[verifier::external_body]
fn hex_encode(data: &[u8]) -> (r: String)
    ensures
        r@ == hex_lower(data@),
{
    hex::encode(data)
}

/// Hashes a password for keeping: the hash has 64 characters.
pub fn hash_password(password: &str) -> (r: String)
    ensures
        r@ == password_hash(password@),
        r@.len() == 64,
{
    let digest = sha256_digest(password.as_bytes());
    hex_encode(digest.as_slice())
}

/// Whether the hash of `provided_password` is `stored_hash`. No password
/// verifies against a stored hash of another length than 64, an empty one
/// among them.
pub fn verify_password(provided_password: &str, stored_hash: &str) -> (r: bool)
    ensures
        r == (password_hash(provided_password@) == stored_hash@),
        stored_hash@.len() != 64 ==> !r,
{
    let hashed_provided = hash_password(provided_password);
    let stored = stored_hash.to_owned();
    hashed_provided == stored
}

} // verus!
