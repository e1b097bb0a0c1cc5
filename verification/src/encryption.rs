//! Passphrase encryption of note bodies: Argon2id derives a key, AES-256-GCM
//! seals the body with the note's identifier as associated data, and the
//! envelope travels as URL-safe base64 after a fixed prefix.

use vstd::prelude::*;

use aes_gcm::aead::{Aead, KeyInit};
use base64::Engine as _;

use crate::text::{chars_of, eq_str, push_str, starts_with_str, is_prefix, string_range};

verus! {

pub const PREFIX: &'static str = "exo-encrypted:v1:";

pub const MEMORY_KIB: u32 = 65536;

pub const ITERATIONS: u32 = 3;

pub const LANES: u32 = 4;

/// The most lanes `argon2` accepts.
pub const MAX_LANES: u32 = 16777215;

/// Why a note body could not be encrypted or decrypted.
#[derive(Clone, Copy, Debug, PartialEq, Eq, Structural)]
pub enum EncryptionError {
    NotEncrypted,
    InvalidEnvelope,
    KeyDerivation,
    Encrypt,
    Decrypt,
    Random,
}

/// The fields of an encryption envelope, stored as JSON.
#[derive(Clone, Debug, PartialEq, Eq)]
pub struct Envelope {
    pub v: u8,
    pub kdf: String,
    pub m: u32,
    pub t: u32,
    pub p: u32,
    pub s: String,
    pub n: String,
    pub ct: String,
}

/// The character of a 6-bit value in the URL-safe base64 alphabet.
pub open spec fn base64_char(v: int) -> char {
    if v < 26 {
        (65 + v) as char
    } else if v < 52 {
        (71 + v) as char
    } else if v < 62 {
        (v - 4) as char
    } else if v == 62 {
        '-'
    } else {
        '_'
    }
}

/// The URL-safe, unpadded base64 text of `bytes`: four characters for each
/// three bytes, then three characters for two bytes left over or two for
/// one, without `=` padding.
pub open spec fn base64_text(bytes: Seq<u8>) -> Seq<char>
    decreases bytes.len(),
{
    let b0 = if bytes.len() > 0 { bytes[0] as int } else { 0 };
    let b1 = if bytes.len() > 1 { bytes[1] as int } else { 0 };
    let b2 = if bytes.len() > 2 { bytes[2] as int } else { 0 };
    if bytes.len() == 0 {
        Seq::empty()
    } else if bytes.len() == 1 {
        seq![base64_char(b0 / 4), base64_char((b0 % 4) * 16)]
    } else if bytes.len() == 2 {
        seq![base64_char(b0 / 4), base64_char((b0 % 4) * 16 + b1 / 16), base64_char((b1 % 16) * 4)]
    } else {
        seq![
            base64_char(b0 / 4),
            base64_char((b0 % 4) * 16 + b1 / 16),
            base64_char((b1 % 16) * 4 + b2 / 64),
            base64_char(b2 % 64),
        ] + base64_text(bytes.subrange(3, bytes.len() as int))
    }
}

/// The bytes that the `base64` crate decodes from URL-safe, unpadded text,
/// or `None` where it reports an error.
pub uninterp spec fn base64_bytes(text: Seq<char>) -> Option<Seq<u8>>;

/// The 32-byte key `argon2` derives with Argon2id (version 0x13), or `None`
/// where it refuses the parameters or inputs.
pub uninterp spec fn argon2id_key(password: Seq<u8>, salt: Seq<u8>, memory: u32, iterations: u32, lanes: u32) -> Option<Seq<u8>>;

/// The AES-256-GCM ciphertext and tag that `aes-gcm` produces, or `None`
/// where it reports an error.
pub uninterp spec fn aes_gcm_sealed(key: Seq<u8>, nonce: Seq<u8>, message: Seq<u8>, aad: Seq<u8>) -> Option<Seq<u8>>;

/// The plaintext that `aes-gcm` recovers, or `None` where authentication fails.
pub uninterp spec fn aes_gcm_opened(key: Seq<u8>, nonce: Seq<u8>, ciphertext: Seq<u8>, aad: Seq<u8>) -> Option<Seq<u8>>;

/// `Engine::encode` of `URL_SAFE_NO_PAD`.
#[verifier::external_body]
pub(crate) fn base64_encode(bytes: &[u8]) -> (result: String)
    ensures
        result@ == base64_text(bytes@),
{
    base64::engine::general_purpose::URL_SAFE_NO_PAD.encode(bytes)
}

/// `Engine::decode` of `URL_SAFE_NO_PAD`. Decoding what `encode` wrote gives
/// back the encoded bytes, as the crate documents.
#[verifier::external_body]
pub(crate) fn base64_decode(text: &str) -> (result: Option<Vec<u8>>)
    ensures
        match result {
            Some(bytes) => base64_bytes(text@) == Some(bytes@),
            None => base64_bytes(text@) is None,
        },
        forall|b: Seq<u8>| text@ == #[trigger] base64_text(b) ==> result is Some && result.unwrap()@ == b,
{
    base64::engine::general_purpose::URL_SAFE_NO_PAD.decode(text).ok()
}

/// `Params::new(memory, iterations, lanes, Some(32))` and
/// `Argon2::hash_password_into` with Argon2id, version 0x13. `argon2`
/// multiplies the lanes by eight while checking them, so they are bounded.
/// It allocates `memory` KiB; that the allocation succeeds is left unsaid.
#[verifier::external_body]
fn argon2id_derive(password: &[u8], salt: &[u8], memory: u32, iterations: u32, lanes: u32) -> (result: Option<[u8; 32]>)
    requires
        lanes <= MAX_LANES,
    ensures
        match result {
            Some(key) => argon2id_key(password@, salt@, memory, iterations, lanes) == Some(key@),
            None => argon2id_key(password@, salt@, memory, iterations, lanes) is None,
        },
{
    let params = argon2::Params::new(memory, iterations, lanes, Some(32)).ok()?;
    let argon = argon2::Argon2::new(argon2::Algorithm::Argon2id, argon2::Version::V0x13, params);
    let mut key = [0u8; 32];
    argon.hash_password_into(password, salt, &mut key).ok()?;
    Some(key)
}

/// `Aes256Gcm::encrypt` with the message and associated data as its payload.
#[verifier::external_body]
fn aes_gcm_encrypt(key: &[u8; 32], nonce: &[u8; 12], message: &[u8], aad: &[u8]) -> (result: Option<Vec<u8>>)
    ensures
        match result {
            Some(ct) => aes_gcm_sealed(key@, nonce@, message@, aad@) == Some(ct@),
            None => aes_gcm_sealed(key@, nonce@, message@, aad@) is None,
        },
{
    let cipher = aes_gcm::Aes256Gcm::new_from_slice(key).ok()?;
    cipher.encrypt(aes_gcm::Nonce::from_slice(nonce), aes_gcm::aead::Payload { msg: message, aad }).ok()
}

/// `Aes256Gcm::decrypt` with the ciphertext and associated data as its
/// payload. A ciphertext sealed under the same key, nonce and associated
/// data opens to the sealed message (AEAD correctness).
#[verifier::external_body]
fn aes_gcm_decrypt(key: &[u8; 32], nonce: &[u8; 12], ciphertext: &[u8], aad: &[u8]) -> (result: Option<Vec<u8>>)
    ensures
        match result {
            Some(pt) => aes_gcm_opened(key@, nonce@, ciphertext@, aad@) == Some(pt@),
            None => aes_gcm_opened(key@, nonce@, ciphertext@, aad@) is None,
        },
        forall|m: Seq<u8>|
            #[trigger] aes_gcm_sealed(key@, nonce@, m, aad@) == Some(ciphertext@) ==> result is Some && result.unwrap()@ == m,
{
    let cipher = aes_gcm::Aes256Gcm::new_from_slice(key).ok()?;
    cipher.decrypt(aes_gcm::Nonce::from_slice(nonce), aes_gcm::aead::Payload { msg: ciphertext, aad }).ok()
}

/// `String::from_utf8`: the text whose UTF-8 encoding is `bytes`, if they are valid UTF-8.
#[verifier::external_body]
fn utf8_text(bytes: Vec<u8>) -> (result: Option<String>)
    ensures
        result is Some <==> vstd::utf8::valid_utf8(bytes@),
        result matches Some(s) ==> vstd::utf8::encode_utf8(s@) == bytes@,
{
    String::from_utf8(bytes).ok()
}

/// Whether a note body holds an encrypted envelope.
pub fn is_encrypted(body: &str) -> (result: bool)
    ensures
        result == is_prefix(PREFIX@, body@),
{
    let chars = chars_of(body);
    starts_with_str(chars.as_slice(), PREFIX)
}

/// The associated data that binds a ciphertext to its note.
pub open spec fn aad_spec(note_id: Seq<char>) -> Seq<u8> {
    vstd::utf8::encode_utf8("exo-encrypted:v1\0"@ + note_id)
}

fn aad(note_id: &str) -> (result: Vec<u8>)
    ensures
        result@ == aad_spec(note_id@),
{
    let mut text = String::new();
    push_str(&mut text, "exo-encrypted:v1\0");
    push_str(&mut text, note_id);
    let bytes = text.as_str().as_bytes();
    let mut result: Vec<u8> = Vec::new();
    let mut i: usize = 0;
    while i < bytes.len()
        invariant
            i <= bytes@.len(),
            result@ == bytes@.take(i as int),
        decreases bytes@.len() - i,
    {
        result.push(bytes[i]);
        i = i + 1;
        assert(bytes@.take(i as int) =~= bytes@.take((i - 1) as int).push(bytes@[i - 1]));
    }
    assert(bytes@.take(i as int) =~= bytes@);
    result
}

/// The key for a passphrase and salt, refusing lane counts `argon2` refuses.
pub open spec fn derived_key(passphrase: Seq<char>, salt: Seq<u8>, memory: u32, iterations: u32, lanes: u32) -> Option<Seq<u8>> {
    if lanes > MAX_LANES {
        None
    } else {
        argon2id_key(vstd::utf8::encode_utf8(passphrase), salt, memory, iterations, lanes)
    }
}

fn derive_key(passphrase: &str, salt: &[u8], memory: u32, iterations: u32, lanes: u32) -> (result: Result<[u8; 32], EncryptionError>)
    ensures
        match derived_key(passphrase@, salt@, memory, iterations, lanes) {
            Some(k) => result matches Ok(key) && key@ == k,
            None => result == Err::<[u8; 32], EncryptionError>(EncryptionError::KeyDerivation),
        },
{
    if lanes > MAX_LANES {
        return Err(EncryptionError::KeyDerivation);
    }
    match argon2id_derive(passphrase.as_bytes(), salt, memory, iterations, lanes) {
        Some(key) => Ok(key),
        None => Err(EncryptionError::KeyDerivation),
    }
}

/// The envelope that sealing a plaintext with explicit salt and nonce gives.
pub open spec fn sealed_envelope(
    note_id: Seq<char>,
    passphrase: Seq<char>,
    plaintext: Seq<char>,
    salt: Seq<u8>,
    nonce: Seq<u8>,
) -> Result<(Seq<char>, Seq<char>, Seq<char>), EncryptionError> {
    match derived_key(passphrase, salt, MEMORY_KIB, ITERATIONS, LANES) {
        None => Err(EncryptionError::KeyDerivation),
        Some(key) => match aes_gcm_sealed(key, nonce, vstd::utf8::encode_utf8(plaintext), aad_spec(note_id)) {
            None => Err(EncryptionError::Encrypt),
            Some(ct) => Ok((base64_text(salt), base64_text(nonce), base64_text(ct))),
        },
    }
}

/// Seal a plaintext for a note under a passphrase with the given salt and
/// nonce: the envelope that `open` reads back.
pub fn seal(note_id: &str, passphrase: &str, plaintext: &str, salt: [u8; 16], nonce: [u8; 12]) -> (result: Result<Envelope, EncryptionError>)
    ensures
        match sealed_envelope(note_id@, passphrase@, plaintext@, salt@, nonce@) {
            Ok((s, n, ct)) => result matches Ok(e) && e.v == 1 && e.kdf@ == "argon2id"@ && e.m == MEMORY_KIB
                && e.t == ITERATIONS && e.p == LANES && e.s@ == s && e.n@ == n && e.ct@ == ct,
            Err(x) => result == Err::<Envelope, EncryptionError>(x),
        },
{
    let key = derive_key(passphrase, &salt, MEMORY_KIB, ITERATIONS, LANES)?;
    let associated = aad(note_id);
    let ciphertext = match aes_gcm_encrypt(&key, &nonce, plaintext.as_bytes(), associated.as_slice()) {
        Some(ct) => ct,
        None => return Err(EncryptionError::Encrypt),
    };
    Ok(
        Envelope {
            v: 1,
            kdf: "argon2id".to_owned(),
            m: MEMORY_KIB,
            t: ITERATIONS,
            p: LANES,
            s: base64_encode(&salt),
            n: base64_encode(&nonce),
            ct: base64_encode(ciphertext.as_slice()),
        },
    )
}

/// What opening an envelope gives.
pub open spec fn opened_text(note_id: Seq<char>, passphrase: Seq<char>, e: Envelope) -> Result<Seq<char>, EncryptionError> {
    if e.v != 1 || e.kdf@ != "argon2id"@ || e.m == 0 || e.t == 0 || e.p == 0 {
        Err(EncryptionError::InvalidEnvelope)
    } else {
        match (base64_bytes(e.s@), base64_bytes(e.n@), base64_bytes(e.ct@)) {
            (Some(salt), Some(nonce), Some(ct)) => if salt.len() != 16 || nonce.len() != 12 {
                Err(EncryptionError::InvalidEnvelope)
            } else {
                match derived_key(passphrase, salt, e.m, e.t, e.p) {
                    None => Err(EncryptionError::KeyDerivation),
                    Some(key) => match aes_gcm_opened(key, nonce, ct, aad_spec(note_id)) {
                        None => Err(EncryptionError::Decrypt),
                        Some(pt) => if vstd::utf8::valid_utf8(pt) {
                            Ok(vstd::utf8::decode_utf8(pt))
                        } else {
                            Err(EncryptionError::Decrypt)
                        },
                    },
                }
            },
            _ => Err(EncryptionError::InvalidEnvelope),
        }
    }
}

fn to_array12(bytes: &Vec<u8>) -> (result: [u8; 12])
    requires
        bytes@.len() == 12,
    ensures
        result@ == bytes@,
{
    let mut a = [0u8; 12];
    let mut i: usize = 0;
    while i < 12
        invariant
            i <= 12,
            bytes@.len() == 12,
            a@.len() == 12,
            forall|j: int| 0 <= j < i ==> a@[j] == bytes@[j],
        decreases 12 - i,
    {
        a[i] = bytes[i];
        i = i + 1;
    }
    assert(a@ =~= bytes@);
    a
}

/// Whether `seal` made `e` from `plaintext` for this note and passphrase
/// with a 16-byte salt and a 12-byte nonce.
pub open spec fn made_by_seal(note_id: Seq<char>, passphrase: Seq<char>, plaintext: Seq<char>, salt: Seq<u8>, nonce: Seq<u8>, e: Envelope) -> bool {
    &&& salt.len() == 16
    &&& nonce.len() == 12
    &&& sealed_envelope(note_id, passphrase, plaintext, salt, nonce) matches Ok((s, n, ct))
    &&& e.v == 1
    &&& e.kdf@ == "argon2id"@
    &&& e.m == MEMORY_KIB
    &&& e.t == ITERATIONS
    &&& e.p == LANES
    &&& e.s@ == s
    &&& e.n@ == n
    &&& e.ct@ == ct
}

/// Open an envelope for a note with a passphrase. An envelope that `seal`
/// made for the same note and passphrase opens to the sealed text.
pub fn open(note_id: &str, passphrase: &str, envelope: &Envelope) -> (result: Result<String, EncryptionError>)
    ensures
        match opened_text(note_id@, passphrase@, *envelope) {
            Ok(text) => result matches Ok(s) && s@ == text,
            Err(x) => result == Err::<String, EncryptionError>(x),
        },
        forall|plaintext: Seq<char>, salt: Seq<u8>, nonce: Seq<u8>|
            #[trigger] made_by_seal(note_id@, passphrase@, plaintext, salt, nonce, *envelope) ==> (result matches Ok(
                s,
            ) && s@ == plaintext),
{
    let kdf = chars_of(envelope.kdf.as_str());
    if envelope.v != 1 || !eq_str(kdf.as_slice(), "argon2id") || envelope.m == 0 || envelope.t == 0 || envelope.p == 0 {
        return Err(EncryptionError::InvalidEnvelope);
    }
    let salt = match base64_decode(envelope.s.as_str()) {
        Some(b) => b,
        None => return Err(EncryptionError::InvalidEnvelope),
    };
    let nonce = match base64_decode(envelope.n.as_str()) {
        Some(b) => b,
        None => return Err(EncryptionError::InvalidEnvelope),
    };
    let ciphertext = match base64_decode(envelope.ct.as_str()) {
        Some(b) => b,
        None => return Err(EncryptionError::InvalidEnvelope),
    };
    if salt.len() != 16 || nonce.len() != 12 {
        return Err(EncryptionError::InvalidEnvelope);
    }
    let key = derive_key(passphrase, salt.as_slice(), envelope.m, envelope.t, envelope.p)?;
    let nonce12 = to_array12(&nonce);
    let associated = aad(note_id);
    let plaintext = match aes_gcm_decrypt(&key, &nonce12, ciphertext.as_slice(), associated.as_slice()) {
        Some(pt) => pt,
        None => return Err(EncryptionError::Decrypt),
    };
    let ghost pt = plaintext@;
    proof {
        assert forall|p: Seq<char>, sa: Seq<u8>, no: Seq<u8>|
            #[trigger] made_by_seal(note_id@, passphrase@, p, sa, no, *envelope) implies pt == vstd::utf8::encode_utf8(p) by {
            assert(aes_gcm_sealed(key@, nonce12@, vstd::utf8::encode_utf8(p), associated@) == Some(ciphertext@));
        }
    }
    match utf8_text(plaintext) {
        Some(text) => {
            proof {
                vstd::utf8::encode_utf8_decode_utf8(text@);
                assert forall|p: Seq<char>, sa: Seq<u8>, no: Seq<u8>|
                    #[trigger] made_by_seal(note_id@, passphrase@, p, sa, no, *envelope) implies text@ == p by {
                    vstd::utf8::encode_utf8_decode_utf8(p);
                }
            }
            Ok(text)
        },
        None => {
            proof {
                assert forall|p: Seq<char>, sa: Seq<u8>, no: Seq<u8>|
                    #[trigger] made_by_seal(note_id@, passphrase@, p, sa, no, *envelope) implies false by {
                    vstd::utf8::encode_utf8_valid_utf8(p);
                }
            }
            Err(EncryptionError::Decrypt)
        },
    }
}

/// The body that carries an envelope's JSON encoding.
pub open spec fn envelope_body_spec(json: Seq<u8>) -> Seq<char> {
    PREFIX@ + base64_text(json)
}

/// Frame the JSON encoding of an envelope as a note body.
pub fn envelope_body(json: &[u8]) -> (result: String)
    ensures
        result@ == envelope_body_spec(json@),
{
    let mut body = String::new();
    push_str(&mut body, PREFIX);
    let encoded = base64_encode(json);
    push_str(&mut body, encoded.as_str());
    body
}

/// The JSON encoding of the envelope that a note body carries.
pub open spec fn envelope_json_spec(body: Seq<char>) -> Result<Seq<u8>, EncryptionError> {
    if !is_prefix(PREFIX@, body) {
        Err(EncryptionError::NotEncrypted)
    } else {
        match base64_bytes(body.skip(PREFIX@.len() as int)) {
            Some(json) => Ok(json),
            None => Err(EncryptionError::InvalidEnvelope),
        }
    }
}

/// Unframe a note body: the JSON encoding of its envelope. Unframing a
/// framed body gives back the JSON that was framed.
pub fn envelope_json(body: &str) -> (result: Result<Vec<u8>, EncryptionError>)
    ensures
        match envelope_json_spec(body@) {
            Ok(json) => result matches Ok(v) && v@ == json,
            Err(x) => result == Err::<Vec<u8>, EncryptionError>(x),
        },
        forall|json: Seq<u8>| body@ == #[trigger] envelope_body_spec(json) ==> (result matches Ok(v) && v@ == json),
{
    let chars = chars_of(body);
    if !starts_with_str(chars.as_slice(), PREFIX) {
        proof {
            assert forall|json: Seq<u8>| body@ == #[trigger] envelope_body_spec(json) implies false by {
                assert(body@.take(PREFIX@.len() as int) =~= PREFIX@);
            }
        }
        return Err(EncryptionError::NotEncrypted);
    }
    let prefix_len = chars_of(PREFIX).len();
    let rest = string_range(chars.as_slice(), prefix_len, chars.len());
    proof {
        assert(rest@ =~= body@.skip(PREFIX@.len() as int));
        assert forall|json: Seq<u8>| body@ == #[trigger] envelope_body_spec(json) implies rest@ == base64_text(json) by {
            assert(body@.skip(PREFIX@.len() as int) =~= base64_text(json));
        }
    }
    match base64_decode(rest.as_str()) {
        Some(json) => Ok(json),
        None => Err(EncryptionError::InvalidEnvelope),
    }
}


/// Every body that frames an envelope's JSON counts as encrypted, and
/// unframing it is not refused as unencrypted.
pub proof fn lemma_framed_body_is_encrypted(json: Seq<u8>)
    ensures
        is_prefix(PREFIX@, envelope_body_spec(json)),
        !(envelope_json_spec(envelope_body_spec(json)) is Err && envelope_json_spec(envelope_body_spec(json))->Err_0
            == EncryptionError::NotEncrypted),
{
    assert(envelope_body_spec(json).take(PREFIX@.len() as int) =~= PREFIX@);
}

} // verus!
