//! Hashes, message authentication codes and their hexadecimal text.
use hmac::Mac;
use sha2::Digest;
use vstd::prelude::*;

verus! {

/// The SHA-256 hash of some bytes.
pub uninterp spec fn sha256(data: Seq<u8>) -> Seq<u8>;

/// The HMAC of a message under a key, with SHA-256.
pub uninterp spec fn hmac_sha256(key: Seq<u8>, message: Seq<u8>) -> Seq<u8>;

/// The lower-case hexadecimal digit of value `n`.
pub open spec fn hex_digit(n: int) -> char {
    if n < 10 {
        ('0' as int + n) as char
    } else {
        ('a' as int + n - 10) as char
    }
}

/// Two lower-case hexadecimal digits for each byte, the higher half first.
pub open spec fn lower_hex(data: Seq<u8>) -> Seq<char> {
    Seq::new(
        data.len() * 2,
        |i: int|
            if i % 2 == 0 {
                hex_digit(data[i / 2] as int / 16)
            } else {
                hex_digit(data[i / 2] as int % 16)
            },
    )
}

/// `sha2::Sha256::digest` gives the hash of the bytes, 32 bytes long; what the hash is, is
/// only named.
#[verifier::external_body]
pub(crate) fn sha256_of(data: &[u8]) -> (r: Vec<u8>)
    ensures
        r@ == sha256(data@),
        r@.len() == 32,
{
    sha2::Sha256::digest(data).to_vec()
}

/// `hmac::Hmac` over `sha2::Sha256`, made from a key of any length, gives the code of the
/// message, 32 bytes long; what the code is, is only named.
#[verifier::external_body]
pub(crate) fn hmac_of(key: &[u8], message: &[u8]) -> (r: Vec<u8>)
    ensures
        r@ == hmac_sha256(key@, message@),
        r@.len() == 32,
{
    let mut mac = hmac::Hmac::<sha2::Sha256>::new_from_slice(key).expect("Invalid HMAC key");
    mac.update(message);
    mac.finalize().into_bytes().to_vec()
}

/// `hex::encode` writes each byte as two lower-case hexadecimal digits.
#[verifier::external_body]
pub(crate) fn hex_of(data: &[u8]) -> (r: String)
    ensures
        r@ == lower_hex(data@),
{
    hex::encode(data)
}

/// Each byte is written as two lower-case hexadecimal digits, the higher half first, and the text
/// of some bytes is the texts of its parts, one behind the other.
pub proof fn law_hex(a: Seq<u8>, b: Seq<u8>, byte: u8)
    ensures
        lower_hex(a + b) == lower_hex(a) + lower_hex(b),
        lower_hex(seq![byte]) == seq![
            "0123456789abcdef"@[byte as int / 16],
            "0123456789abcdef"@[byte as int % 16],
        ],
{
    reveal_strlit("0123456789abcdef");
    assert(lower_hex(a + b) =~= lower_hex(a) + lower_hex(b)) by {
        assert forall|i: int| 0 <= i < (a + b).len() * 2 implies lower_hex(a + b)[i] == (lower_hex(
            a,
        ) + lower_hex(b))[i] by {
            if i >= a.len() * 2 {
                let k = i - a.len() * 2;
                assert(i / 2 == a.len() + k / 2);
                assert(i % 2 == k % 2);
            }
        }
    }
    assert(lower_hex(seq![byte]) =~= seq![
        "0123456789abcdef"@[byte as int / 16],
        "0123456789abcdef"@[byte as int % 16],
    ]);
}

} // verus!
