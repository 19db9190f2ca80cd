//! Session tokens: random generation, URL-safe encoding and the hashes that
//! the store keeps in place of the tokens themselves.

use crate::error::{error_is, ApiError, ApiStatus};
use base64::Engine;
use rand::TryRngCore;
use sha2::Digest;
use vstd::prelude::*;
use vstd::utf8::encode_utf8;

verus! {

#[verifier::external_type_specification]
#[verifier::external_body]
pub struct ExOsError(rand::rand_core::OsError);

/// The SHA-256 digest of a byte string.
pub uninterp spec fn sha256(data: Seq<u8>) -> Seq<u8>;

/// The URL-safe base64 encoding (RFC 4648 section 5) of a byte string,
/// without padding.
pub uninterp spec fn base64_url_no_pad(data: Seq<u8>) -> Seq<char>;

/// The characters of the URL-safe base64 alphabet.
pub open spec fn is_url_safe_char(c: char) -> bool {
    ('A' <= c <= 'Z') || ('a' <= c <= 'z') || ('0' <= c <= '9') || c == '-' || c == '_'
}

/// Calls `sha2::Sha256::digest`. Claimed: the result is the named SHA-256
/// digest of the input, 32 bytes long.
#[verifier::external_body]
fn sha256_digest(data: &[u8]) -> (digest: Vec<u8>)
    ensures
        digest@ == sha256(data@),
        digest@.len() == 32,
{
    sha2::Sha256::digest(data).to_vec()
}

/// The length of the unpadded base64 text of `n` bytes: four characters
/// per full group of three bytes, and two or three for a last group of one
/// or two bytes.
pub open spec fn unpadded_base64_len(n: nat) -> nat {
    4 * (n / 3) + if n % 3 == 0 {
        0nat
    } else {
        (n % 3 + 1) as nat
    }
}

/// Calls `base64::engine::general_purpose::URL_SAFE_NO_PAD.encode`. Claimed:
/// the result is the named encoding of the input, uses only characters of
/// the URL-safe alphabet and has the unpadded length (`encoded_len` with no
/// padding). The call panics when that length overflows a `usize`, which
/// `requires` leaves out.
#[verifier::external_body]
fn encode_url_safe_no_pad(data: &[u8]) -> (text: String)
    requires
        4 * (data@.len() / 3) + 3 <= usize::MAX,
    ensures
        text@ == base64_url_no_pad(data@),
        forall|i: int| 0 <= i < text@.len() ==> is_url_safe_char(#[trigger] text@[i]),
        text@.len() == unpadded_base64_len(data@.len()),
{
    base64::engine::general_purpose::URL_SAFE_NO_PAD.encode(data)
}

/// Calls `rand::rngs::OsRng::try_fill_bytes` on a 32-byte buffer. Claimed
/// only that a success hands back 32 bytes; which bytes is left open (they
/// come from the operating system's random source).
#[verifier::external_body]
fn os_random_32() -> (r: Result<Vec<u8>, rand::rand_core::OsError>)
    ensures
        r matches Ok(bytes) ==> bytes@.len() == 32,
{
    let mut bytes = [0u8; 32];
    rand::rngs::OsRng.try_fill_bytes(&mut bytes)?;
    Ok(bytes.to_vec())
}

/// A token as `generate_token` hands it out: the URL-safe base64 text of 32
/// random bytes, 43 characters long.
pub open spec fn is_session_token(t: Seq<char>) -> bool {
    &&& exists|b: Seq<u8>| b.len() == 32 && t == #[trigger] base64_url_no_pad(b)
    &&& forall|i: int| 0 <= i < t.len() ==> is_url_safe_char(#[trigger] t[i])
    &&& t.len() == 43
}

/// A fresh random session token; fails when the system's random source does.
pub fn generate_token() -> (r: Result<String, ApiError>)
    ensures
        match r {
            Ok(t) => is_session_token(t@),
            Err(e) => error_is(e, ApiStatus::Internal, "failed to generate token"@),
        },
{
    match os_random_32() {
        Ok(bytes) => {
            let token = encode_url_safe_no_pad(bytes.as_slice());
            assert(unpadded_base64_len(32) == 43);
            Ok(token)
        },
        Err(_) => Err(ApiError::internal("failed to generate token")),
    }
}

/// The lower-case hexadecimal digit of `n` (< 16).
pub open spec fn hex_digit(n: nat) -> char {
    if n < 10 {
        ((n + 48) as u32) as char
    } else {
        ((n + 87) as u32) as char
    }
}

/// Bytes as lower-case hexadecimal text, two digits per byte.
pub open spec fn hex_lower(bytes: Seq<u8>) -> Seq<char>
    decreases bytes.len(),
{
    if bytes.len() == 0 {
        Seq::empty()
    } else {
        hex_lower(bytes.drop_last()) + seq![
            hex_digit((bytes.last() / 16) as nat),
            hex_digit((bytes.last() % 16) as nat),
        ]
    }
}

/// What the store keeps of a token: the hex SHA-256 of its UTF-8 bytes.
pub open spec fn token_hash(token: Seq<char>) -> Seq<char> {
    hex_lower(sha256(encode_utf8(token)))
}

fn hex_char(n: u8) -> (c: char)
    requires
        n < 16,
    ensures
        c == hex_digit(n as nat),
{
    if n < 10 {
        (n + 48) as char
    } else {
        (n + 87) as char
    }
}

/// A lower-case hexadecimal digit.
pub open spec fn is_hex_digit(c: char) -> bool {
    ('0' <= c <= '9') || ('a' <= c <= 'f')
}

/// Hexadecimal text has two digits per byte, each a lower-case hex digit.
pub proof fn lemma_hex_lower_shape(bytes: Seq<u8>)
    ensures
        hex_lower(bytes).len() == 2 * bytes.len(),
        forall|i: int| 0 <= i < hex_lower(bytes).len() ==> is_hex_digit(#[trigger] hex_lower(bytes)[i]),
    decreases bytes.len(),
{
    if bytes.len() > 0 {
        let rest = bytes.drop_last();
        lemma_hex_lower_shape(rest);
        let h = hex_lower(bytes);
        let hi = (bytes.last() / 16) as nat;
        let lo = (bytes.last() % 16) as nat;
        assert forall|i: int| 0 <= i < h.len() implies is_hex_digit(#[trigger] h[i]) by {
            if i < hex_lower(rest).len() {
                assert(h[i] == hex_lower(rest)[i]);
            } else if i == hex_lower(rest).len() {
                assert(h[i] == hex_digit(hi));
            } else {
                assert(h[i] == hex_digit(lo));
            }
        }
    }
}

/// A token's stored hash: 64 lower-case hex digits.
pub open spec fn is_token_hash(h: Seq<char>) -> bool {
    h.len() == 64 && forall|i: int| 0 <= i < h.len() ==> is_hex_digit(#[trigger] h[i])
}

/// The hex SHA-256 of the token's UTF-8 bytes: 64 lower-case hex digits.
pub fn hash_token(token: &str) -> (h: String)
    ensures
        h@ == token_hash(token@),
        is_token_hash(h@),
{
    let digest = sha256_digest(token.as_bytes());
    let mut out = String::new();
    let mut i: usize = 0;
    while i < digest.len()
        invariant
            i <= digest@.len(),
            out@ == hex_lower(digest@.subrange(0, i as int)),
        decreases digest@.len() - i,
    {
        let byte: u8 = digest[i];
        push_hex_pair(&mut out, byte);
        proof {
            let next = digest@.subrange(0, i + 1);
            assert(next.drop_last() =~= digest@.subrange(0, i as int));
        }
        i = i + 1;
    }
    proof {
        assert(digest@.subrange(0, digest@.len() as int) =~= digest@);
        lemma_hex_lower_shape(digest@);
    }
    out
}

fn push_hex_pair(out: &mut String, byte: u8)
    ensures
        final(out)@ == old(out)@ + seq![
            hex_digit((byte / 16) as nat),
            hex_digit((byte % 16) as nat),
        ],
{
    crate::text::push_char(out, hex_char(byte / 16));
    crate::text::push_char(out, hex_char(byte % 16));
}

} // verus!
