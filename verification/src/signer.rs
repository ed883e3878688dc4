//! The trust primitive: authentication tags binding a shared secret to a
//! payload, rendered in lowercase hexadecimal, and the constant-time
//! comparison used to verify them.

use vstd::prelude::*;
use crate::text::{hex_bytes, is_lower_hex_byte, lemma_hex_bytes_digits, to_hex};
use hmac::Mac;
use sha2::Digest;

verus! {

/// Which keyed digest a signer uses.
#[derive(Clone, Copy, PartialEq, Eq, Structural, Debug)]
pub enum SigAlg {
    /// HMAC-SHA-256 over the payload, keyed by the secret.
    HmacSha256,
    /// The legacy form: SHA-256 over the secret followed by the payload.
    LegacySha256,
}

/// The HMAC-SHA-256 tag for a key and a message.
pub uninterp spec fn hmac_sha256_of(key: Seq<u8>, msg: Seq<u8>) -> Seq<u8>;

/// The SHA-256 digest of a byte sequence.
pub uninterp spec fn sha256_of(data: Seq<u8>) -> Seq<u8>;

/// Relies on `hmac::Hmac` over `sha2::Sha256`: the tag is a function of the
/// key and the message alone, and is 32 bytes long.
#[verifier::external_body]
fn hmac_sha256(key: &[u8], msg: &[u8]) -> (r: Vec<u8>)
    ensures
        r@ == hmac_sha256_of(key@, msg@),
        r@.len() == 32,
{
    let mut mac = hmac::Hmac::<sha2::Sha256>::new_from_slice(key).expect(
        "HMAC accepts keys of any length",
    );
    mac.update(msg);
    mac.finalize().into_bytes().to_vec()
}

/// Relies on `sha2::Sha256`: the digest is a function of the input alone,
/// and is 32 bytes long.
#[verifier::external_body]
fn sha256(data: &[u8]) -> (r: Vec<u8>)
    ensures
        r@ == sha256_of(data@),
        r@.len() == 32,
{
    sha2::Sha256::digest(data).to_vec()
}

/// Relies on `constant_time_eq::constant_time_eq`: equality of two byte
/// strings, decided without an early exit at the first difference.
#[verifier::external_body]
pub fn fixed_time_eq(a: &[u8], b: &[u8]) -> (r: bool)
    ensures
        r == (a@ == b@),
{
    constant_time_eq::constant_time_eq(a, b)
}

/// The raw digest a signer computes over a payload.
pub open spec fn spec_digest(alg: SigAlg, secret: Seq<u8>, payload: Seq<u8>) -> Seq<u8> {
    match alg {
        SigAlg::HmacSha256 => hmac_sha256_of(secret, payload),
        SigAlg::LegacySha256 => sha256_of(secret + payload),
    }
}

/// The signature as it appears on the wire: the digest in lowercase
/// hexadecimal, as ASCII bytes.
pub open spec fn spec_signature(alg: SigAlg, secret: Seq<u8>, payload: Seq<u8>) -> Seq<u8> {
    hex_bytes(spec_digest(alg, secret, payload))
}

/// Every byte of a signature is a lowercase hexadecimal digit; in
/// particular a signature holds no dot, no percent sign, no separator and
/// no whitespace.
pub proof fn lemma_signature_digits(alg: SigAlg, secret: Seq<u8>, payload: Seq<u8>)
    ensures
        forall|i: int|
            0 <= i < spec_signature(alg, secret, payload).len() ==> is_lower_hex_byte(
                #[trigger] spec_signature(alg, secret, payload)[i],
            ),
{
    lemma_hex_bytes_digits(spec_digest(alg, secret, payload));
}

/// Compute the signature bytes for a payload: 64 lowercase hexadecimal
/// digits of a 256-bit digest.
pub fn signature_bytes(alg: SigAlg, secret: &[u8], payload: &[u8]) -> (r: Vec<u8>)
    ensures
        r@ == spec_signature(alg, secret@, payload@),
        r@.len() == 64,
{
    let digest = match alg {
        SigAlg::HmacSha256 => hmac_sha256(secret, payload),
        SigAlg::LegacySha256 => {
            let mut buf: Vec<u8> = Vec::new();
            buf.extend_from_slice(secret);
            buf.extend_from_slice(payload);
            proof {
                assert(buf@ =~= secret@ + payload@);
            }
            sha256(buf.as_slice())
        },
    };
    proof {
        lemma_hex_bytes_digits(digest@);
    }
    to_hex(digest.as_slice())
}

} // verus!
