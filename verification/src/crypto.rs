//! Hashing, hexadecimal encoding and signature checks used by membership and
//! peer authentication.

use vstd::prelude::*;

use crate::text::push_char;

verus! {

/// The BLAKE3 digest of `data`.
pub uninterp spec fn blake3_digest(data: Seq<u8>) -> Seq<u8>;

/// Whether 32 bytes are the compressed encoding of an Ed25519 point.
pub uninterp spec fn ed25519_key_valid(public_key: Seq<u8>) -> bool;

/// Whether a 64-byte Ed25519 signature of `message` verifies under `public_key`.
pub uninterp spec fn ed25519_signature_valid(
    public_key: Seq<u8>,
    message: Seq<u8>,
    signature: Seq<u8>,
) -> bool;

/// `blake3::hash`: the 32-byte BLAKE3 digest of `data`, named `blake3_digest`.
#[verifier::external_body]
pub fn blake3_hash(data: &[u8]) -> (result: [u8; 32])
    ensures
        result@ == blake3_digest(data@),
{
    *blake3::hash(data).as_bytes()
}

/// `ed25519_dalek::VerifyingKey::from_bytes` succeeds exactly on valid keys.
#[verifier::external_body]
fn ed25519_decodes(public_key: &[u8; 32]) -> (result: bool)
    ensures
        result == ed25519_key_valid(public_key@),
{
    ed25519_dalek::VerifyingKey::from_bytes(public_key).is_ok()
}

/// `ed25519_dalek::Verifier::verify` of `signature` on `message` under a valid key.
#[verifier::external_body]
fn ed25519_verifies(public_key: &[u8; 32], message: &[u8], signature: &[u8]) -> (result: bool)
    requires
        ed25519_key_valid(public_key@),
        signature@.len() == 64,
    ensures
        result == ed25519_signature_valid(public_key@, message@, signature@),
{
    let bytes: [u8; 64] = signature.try_into().unwrap_or([0; 64]);
    let key = ed25519_dalek::VerifyingKey::from_bytes(public_key).unwrap();
    ed25519_dalek::Verifier::verify(&key, message, &ed25519_dalek::Signature::from_bytes(&bytes)).is_ok()
}

/// Outcome of checking an Ed25519 signature.
#[derive(Clone, Copy, Debug, PartialEq, Eq)]
pub enum SignatureCheck {
    Valid,
    InvalidPublicKey,
    InvalidSignatureLength,
    InvalidSignature,
}

/// What checking `signature` on `message` under `public_key` yields.
pub open spec fn signature_check_spec(public_key: Seq<u8>, message: Seq<u8>, signature: Seq<u8>) -> SignatureCheck {
    if !ed25519_key_valid(public_key) {
        SignatureCheck::InvalidPublicKey
    } else if signature.len() != 64 {
        SignatureCheck::InvalidSignatureLength
    } else if !ed25519_signature_valid(public_key, message, signature) {
        SignatureCheck::InvalidSignature
    } else {
        SignatureCheck::Valid
    }
}

/// Check an Ed25519 signature: the key must decode, the signature must be 64
/// bytes, and it must verify.
pub fn check_signature(public_key: &[u8; 32], message: &[u8], signature: &[u8]) -> (result: SignatureCheck)
    ensures
        result == signature_check_spec(public_key@, message@, signature@),
{
    if !ed25519_decodes(public_key) {
        return SignatureCheck::InvalidPublicKey;
    }
    if signature.len() != 64 {
        return SignatureCheck::InvalidSignatureLength;
    }
    if !ed25519_verifies(public_key, message, signature) {
        return SignatureCheck::InvalidSignature;
    }
    SignatureCheck::Valid
}

/// Lowercase hexadecimal digit for `v < 16`.
pub open spec fn hex_digit(v: nat) -> char {
    if v < 10 {
        (('0' as nat) + v) as char
    } else {
        (('a' as nat) + (v - 10)) as char
    }
}

/// Lowercase hexadecimal encoding of `bytes`, high nibble first.
pub open spec fn hex_spec(bytes: Seq<u8>) -> Seq<char>
    decreases bytes.len(),
{
    if bytes.len() == 0 {
        seq![]
    } else {
        hex_spec(bytes.drop_last()) + seq![
            hex_digit((bytes.last() / 16) as nat),
            hex_digit((bytes.last() % 16) as nat),
        ]
    }
}

fn hex_char(v: u8) -> (result: char)
    requires
        v < 16,
    ensures
        result == hex_digit(v as nat),
{
    if v < 10 {
        ((48 + v) as u8) as char
    } else {
        ((87 + v) as u8) as char
    }
}

/// Encode bytes as lowercase hexadecimal, as `blake3::Hash::to_hex` does.
pub fn encode_hex(bytes: &[u8]) -> (result: String)
    ensures
        result@ == hex_spec(bytes@),
{
    let mut result = String::new();
    let mut i: usize = 0;
    while i < bytes.len()
        invariant
            i <= bytes@.len(),
            result@ == hex_spec(bytes@.take(i as int)),
        decreases bytes@.len() - i,
    {
        let b = bytes[i];
        push_char(&mut result, hex_char(b / 16));
        push_char(&mut result, hex_char(b % 16));
        proof {
            assert(bytes@.take((i + 1) as int).drop_last() =~= bytes@.take(i as int));
        }
        i = i + 1;
    }
    proof {
        assert(bytes@.take(bytes@.len() as int) =~= bytes@);
    }
    result
}

/// The hexadecimal BLAKE3 fingerprint of `data`.
pub open spec fn fingerprint_spec(data: Seq<u8>) -> Seq<char> {
    hex_spec(blake3_digest(data))
}

/// `blake3::hash(data).to_hex()`.
pub fn blake3_hex(data: &[u8]) -> (result: String)
    ensures
        result@ == fingerprint_spec(data@),
{
    let digest = blake3_hash(data);
    encode_hex(&digest)
}


/// The Ed25519 public key of a secret key, as RFC 8032 derives it.
pub uninterp spec fn ed25519_public(secret: Seq<u8>) -> Seq<u8>;

/// The Ed25519 signature of `message` under a secret key; RFC 8032 signing
/// is deterministic.
pub uninterp spec fn ed25519_signature(secret: Seq<u8>, message: Seq<u8>) -> Seq<u8>;

/// `SigningKey::from_bytes(secret).verifying_key().to_bytes()`: the public
/// key, the compressed encoding of a curve point, which decodes again.
#[verifier::external_body]
pub(crate) fn ed25519_public_key(secret: &[u8; 32]) -> (result: [u8; 32])
    ensures
        result@ == ed25519_public(secret@),
        ed25519_key_valid(result@),
{
    ed25519_dalek::SigningKey::from_bytes(secret).verifying_key().to_bytes()
}

/// `Signer::sign` of `SigningKey::from_bytes(secret)`: a 64-byte signature
/// that `Verifier::verify` accepts under the matching public key.
#[verifier::external_body]
pub(crate) fn ed25519_sign(secret: &[u8; 32], message: &[u8]) -> (result: Vec<u8>)
    ensures
        result@ == ed25519_signature(secret@, message@),
        result@.len() == 64,
        ed25519_signature_valid(ed25519_public(secret@), message@, result@),
{
    ed25519_dalek::Signer::sign(&ed25519_dalek::SigningKey::from_bytes(secret), message).to_bytes().to_vec()
}

/// `rand::random`: 32 bytes from the thread's random generator.
#[verifier::external_body]
pub(crate) fn random_secret() -> (result: [u8; 32]) {
    rand::random()
}

} // verus!
