//! Ed25519 envelopes that bind a forwarded Automerge change to its workspace,
//! its author's key, its sequence number and its exact bytes.
//!
//! What a change says of itself (its actor, sequence and hash) is read from
//! its bytes by the document engine and handed in as a `ChangeHeader`; the
//! signed payload is the canonical CBOR encoding of the envelope's fields
//! with the BLAKE3 fingerprint of the change bytes, handed in as `payload`.

use vstd::prelude::*;

use crate::crypto::{blake3_hex, check_signature, fingerprint_spec, signature_check_spec, SignatureCheck};
use crate::text::chars_of;
use crate::text::eq_str;

verus! {

/// A change together with the signature of its author.
#[derive(Clone, Debug, PartialEq, Eq)]
pub struct SignedAutomergeChange {
    pub workspace_id: String,
    pub public_key: [u8; 32],
    pub sequence: u64,
    pub change_hash: String,
    pub change_bytes: Vec<u8>,
    pub signature: Vec<u8>,
}

/// What a change records of itself.
#[derive(Clone, Debug, PartialEq, Eq)]
pub struct ChangeHeader {
    /// The bytes of the actor that made the change.
    pub actor: Vec<u8>,
    /// The actor's sequence number of the change.
    pub sequence: u64,
    /// The change hash in its text form.
    pub hash: String,
}

/// Why a signed change was refused.
#[derive(Clone, Debug, PartialEq, Eq)]
pub enum AuthenticatedChangeError {
    ActorMismatch,
    SequenceMismatch,
    HashMismatch,
    InvalidSignatureLength,
    InvalidSignature,
    InvalidChange(String),
    Encoding(String),
}

/// Which error, if any, verifying `signed` reports, given what its change
/// records of itself and the signed payload.
pub open spec fn change_error(
    signed: SignedAutomergeChange,
    header: ChangeHeader,
    payload: Seq<u8>,
) -> Option<AuthenticatedChangeError> {
    if header.actor@ != signed.public_key@ {
        Some(AuthenticatedChangeError::ActorMismatch)
    } else if header.sequence != signed.sequence {
        Some(AuthenticatedChangeError::SequenceMismatch)
    } else if header.hash@ != signed.change_hash@ {
        Some(AuthenticatedChangeError::HashMismatch)
    } else {
        match signature_check_spec(signed.public_key@, payload, signed.signature@) {
            SignatureCheck::Valid => None,
            SignatureCheck::InvalidSignatureLength => Some(
                AuthenticatedChangeError::InvalidSignatureLength,
            ),
            _ => Some(AuthenticatedChangeError::InvalidSignature),
        }
    }
}

/// Whether two byte strings are equal.
fn same_bytes(a: &[u8], b: &[u8]) -> (result: bool)
    ensures
        result == (a@ == b@),
{
    if a.len() != b.len() {
        return false;
    }
    let mut i: usize = 0;
    while i < a.len()
        invariant
            a@.len() == b@.len(),
            i <= a@.len(),
            forall|j: int| 0 <= j < i ==> a@[j] == b@[j],
        decreases a@.len() - i,
    {
        if a[i] != b[i] {
            return false;
        }
        i = i + 1;
    }
    assert(a@ =~= b@);
    true
}

impl SignedAutomergeChange {
    /// Wrap a change made under `public_key`, refusing one whose actor is
    /// another key.
    pub fn assemble(
        workspace_id: String,
        public_key: [u8; 32],
        header: &ChangeHeader,
        change_bytes: Vec<u8>,
        signature: Vec<u8>,
    ) -> (result: Result<SignedAutomergeChange, AuthenticatedChangeError>)
        ensures
            header.actor@ != public_key@ ==> result == Err::<
                SignedAutomergeChange,
                AuthenticatedChangeError,
            >(AuthenticatedChangeError::ActorMismatch),
            header.actor@ == public_key@ ==> (result matches Ok(signed) && signed.workspace_id@
                == workspace_id@ && signed.public_key == public_key && signed.sequence
                == header.sequence && signed.change_hash@ == header.hash@ && signed.change_bytes@
                == change_bytes@ && signed.signature@ == signature@),
    {
        if !same_bytes(header.actor.as_slice(), &public_key) {
            return Err(AuthenticatedChangeError::ActorMismatch);
        }
        let hash_chars = chars_of(header.hash.as_str());
        let change_hash = crate::text::string_of(hash_chars.as_slice());
        Ok(SignedAutomergeChange {
            workspace_id,
            public_key,
            sequence: header.sequence,
            change_hash,
            change_bytes,
            signature,
        })
    }

    /// The BLAKE3 fingerprint of the change bytes, as the signed payload holds it.
    pub fn change_bytes_hash(&self) -> (result: String)
        ensures
            result@ == fingerprint_spec(self.change_bytes@),
    {
        blake3_hex(self.change_bytes.as_slice())
    }

    /// Verify the envelope: the change must be by the signing key, with the
    /// signed sequence number and hash, and the signature over `payload`
    /// must hold.
    pub fn verify(&self, header: &ChangeHeader, payload: &[u8]) -> (result: Result<(), AuthenticatedChangeError>)
        ensures
            match change_error(*self, *header, payload@) {
                Some(error) => result == Err::<(), AuthenticatedChangeError>(error),
                None => result is Ok,
            },
    {
        if !same_bytes(header.actor.as_slice(), &self.public_key) {
            return Err(AuthenticatedChangeError::ActorMismatch);
        }
        if header.sequence != self.sequence {
            return Err(AuthenticatedChangeError::SequenceMismatch);
        }
        let hash = chars_of(header.hash.as_str());
        if !eq_str(hash.as_slice(), self.change_hash.as_str()) {
            return Err(AuthenticatedChangeError::HashMismatch);
        }
        match check_signature(&self.public_key, payload, self.signature.as_slice()) {
            SignatureCheck::Valid => Ok(()),
            SignatureCheck::InvalidSignatureLength => Err(
                AuthenticatedChangeError::InvalidSignatureLength,
            ),
            _ => Err(AuthenticatedChangeError::InvalidSignature),
        }
    }
}

} // verus!
