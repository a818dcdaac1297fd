//! SHA-256 and its text in hexadecimal: the names of the blobs.

use sha2::Digest;
use vstd::prelude::*;

use crate::text::digit_value;

verus! {

/// The SHA-256 digest of a message.
pub uninterp spec fn sha256_of(data: Seq<u8>) -> Seq<u8>;

/// `sha2::Sha256::digest`: the SHA-256 digest of the data, always 32 bytes.
/// Which bytes they are is named, not stated.
#[verifier::external_body]
fn sha256(data: &[u8]) -> (r: Vec<u8>)
    ensures
        r@ == sha256_of(data@),
        r@.len() == 32,
{
    sha2::Sha256::digest(data).to_vec()
}

/// The lower-case hexadecimal character of a value below 16.
pub open spec fn hex_digit(v: int) -> char {
    if v < 10 {
        (0x30 + v) as char
    } else {
        (0x61 + v - 10) as char
    }
}

/// Two lower-case characters for each byte, the high half first.
pub open spec fn hex_text(bytes: Seq<u8>) -> Seq<char> {
    Seq::new(
        2 * bytes.len(),
        |i: int|
            if i % 2 == 0 {
                hex_digit(bytes[i / 2] as int / 16)
            } else {
                hex_digit(bytes[i / 2] as int % 16)
            },
    )
}

/// `hex::encode`: each byte as two lower-case hexadecimal characters.
#[verifier::external_body]
fn hex_encode(bytes: &[u8]) -> (r: String)
    ensures
        r@ == hex_text(bytes@),
{
    hex::encode(bytes)
}

/// The 32 bytes of a digest.
pub open spec fn digest_bytes(data: Seq<u8>) -> Seq<u8> {
    Seq::new(32, |i: int| sha256_of(data)[i])
}

/// The name of a blob: its SHA-256 in lower-case hexadecimal.
pub open spec fn sha256_text(data: Seq<u8>) -> Seq<char> {
    hex_text(digest_bytes(data))
}

/// A lower-case hexadecimal character.
pub open spec fn is_lower_hex(c: char) -> bool {
    '0' <= c <= '9' || 'a' <= c <= 'f'
}

/// 64 lower-case hexadecimal characters: a name that a digest can have.
pub open spec fn is_digest_name(s: Seq<char>) -> bool {
    &&& s.len() == 64
    &&& forall|i: int| 0 <= i < s.len() ==> is_lower_hex(#[trigger] s[i])
}

/// The name of a blob is one that a digest can have.
pub proof fn lemma_digest_name(data: Seq<u8>)
    ensures
        is_digest_name(sha256_text(data)),
{
    let d = digest_bytes(data);
    let r = hex_text(d);
    assert forall|i: int| 0 <= i < r.len() implies is_lower_hex(#[trigger] r[i]) by {
        let b = d[i / 2];
        assert(0 <= b as int / 16 < 16);
        assert(0 <= b as int % 16 < 16);
    }
}

/// The name of a blob: its SHA-256 in lower-case hexadecimal.
pub fn sha256_hex(data: &[u8]) -> (r: String)
    ensures
        r@ == sha256_text(data@),
        is_digest_name(r@),
{
    let d = sha256(data);
    proof {
        assert(d@ =~= digest_bytes(data@));
        lemma_digest_name(data@);
    }
    hex_encode(&d)
}

/// A name tells the digest: data with different digests has different names, so that
/// what is stored under a name is what its digest stands for.
pub proof fn law_name_tells_digest(a: Seq<u8>, b: Seq<u8>)
    ensures
        sha256_text(a) == sha256_text(b) ==> digest_bytes(a) == digest_bytes(b),
{
    let (x, y) = (digest_bytes(a), digest_bytes(b));
    if hex_text(x) == hex_text(y) {
        assert forall|i: int| 0 <= i < x.len() implies x[i] == y[i] by {
            assert(hex_text(x)[2 * i] == hex_text(y)[2 * i]);
            assert(hex_text(x)[2 * i + 1] == hex_text(y)[2 * i + 1]);
            assert((2 * i) / 2 == i && (2 * i + 1) / 2 == i);
        }
        assert(x =~= y);
    }
}

/// A name writes the whole digest of all the data: two digits of base 16 for each of its
/// 32 bytes, the high one first.
pub proof fn law_name_writes_the_digest(data: Seq<u8>, i: int)
    requires
        0 <= i < 32,
    ensures
        sha256_text(data).len() == 64,
        digit_value(sha256_text(data)[2 * i], 16) is Some,
        digit_value(sha256_text(data)[2 * i + 1], 16) is Some,
        sha256_of(data)[i] == 16 * digit_value(sha256_text(data)[2 * i], 16)->0 + digit_value(
            sha256_text(data)[2 * i + 1],
            16,
        )->0,
        is_lower_hex(sha256_text(data)[2 * i]),
        is_lower_hex(sha256_text(data)[2 * i + 1]),
{
    let b = sha256_of(data)[i];
    lemma_digest_name(data);
    assert((2 * i) / 2 == i && (2 * i + 1) / 2 == i);
    assert((2 * i) % 2 == 0 && (2 * i + 1) % 2 == 1);
    assert(digest_bytes(data)[i] == b);
    assert(0 <= b as int / 16 < 16);
    assert(0 <= b as int % 16 < 16);
}

} // verus!
