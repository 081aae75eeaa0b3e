use vstd::prelude::*;

verus! {

use sha2::Digest;

/// The SHA-256 digest of a byte sequence, left abstract: the engine never
/// inspects digests, it only compares them for equality.
pub uninterp spec fn sha256_of(data: Seq<u8>) -> Seq<u8>;

/// The lowercase hexadecimal digit for a value below sixteen.
pub open spec fn hex_digit(n: int) -> char {
    if n == 0 {
        '0'
    } else if n == 1 {
        '1'
    } else if n == 2 {
        '2'
    } else if n == 3 {
        '3'
    } else if n == 4 {
        '4'
    } else if n == 5 {
        '5'
    } else if n == 6 {
        '6'
    } else if n == 7 {
        '7'
    } else if n == 8 {
        '8'
    } else if n == 9 {
        '9'
    } else if n == 10 {
        'a'
    } else if n == 11 {
        'b'
    } else if n == 12 {
        'c'
    } else if n == 13 {
        'd'
    } else if n == 14 {
        'e'
    } else {
        'f'
    }
}

/// Lowercase hex encoding of a byte sequence: two digits per byte, most
/// significant digit first.
pub open spec fn hex_of(data: Seq<u8>) -> Seq<char>
    decreases data.len(),
{
    if data.len() == 0 {
        Seq::empty()
    } else {
        seq![hex_digit(data.first() as int / 16), hex_digit(data.first() as int % 16)]
            + hex_of(data.drop_first())
    }
}

/// The hex-encoded SHA-256 digest of a byte sequence, as the engine compares
/// it against a client-declared content hash.
pub open spec fn content_hash_of(data: Seq<u8>) -> Seq<char> {
    hex_of(sha256_of(data))
}

/// Relies on sha2::Sha256 through the Digest trait: the 32-byte digest is a
/// function of the input bytes alone.
#[verifier::external_body]
pub(crate) fn sha256(data: &Vec<u8>) -> (r: Vec<u8>)
    ensures
        r@ == sha256_of(data@),
{
    sha2::Sha256::digest(data).to_vec()
}

/// Relies on hex::encode: lowercase hex, two digits per byte, most
/// significant digit first.
#[verifier::external_body]
pub(crate) fn hex_encode(data: &Vec<u8>) -> (r: String)
    ensures
        r@ == hex_of(data@),
{
    hex::encode(data)
}

} // verus!
