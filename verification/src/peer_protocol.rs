//! Versioned admission and authenticated synchronization messages between peers.
//!
//! Each signed message is checked against the canonical CBOR encoding of its
//! unsigned fields, which the caller supplies as `payload`.

use vstd::prelude::*;

use crate::crypto::{check_signature, ed25519_public, ed25519_signature, signature_check_spec, SignatureCheck};
use crate::encryption::{base64_bytes, base64_decode, base64_encode, base64_text};
use crate::membership::{MembershipIdentity, PeerId};
use crate::text::{trim, trim_spec};

verus! {

pub const PROTOCOL_VERSION: u16 = 1;

pub const MAX_PROTOCOL_FRAME: usize = 16777216;

/// Why a protocol message was refused.
#[derive(Clone, Copy, Debug, PartialEq, Eq, Structural)]
pub enum ProtocolError {
    InvalidInvitation,
    InvalidJoinRequest,
    InvalidAuthHello,
    InvalidAnnouncement,
    Encoding,
    InvalidSignatureLength,
    InvalidPublicKey,
    InvalidSignature,
}

/// A device asks to join a workspace.
#[derive(Debug, PartialEq, Eq)]
pub struct JoinRequest {
    pub version: u16,
    pub workspace_id: String,
    pub peer_id: PeerId,
    pub public_key: [u8; 32],
    pub endpoint_id: String,
    pub endpoint_addresses: Vec<String>,
    pub requested_at_ms: u64,
    pub nonce: [u8; 32],
    pub signature: Vec<u8>,
}

/// The answer to a join request.
#[derive(Clone, Debug, PartialEq, Eq)]
pub enum JoinResponse {
    Pending,
    Approved { membership_event: Vec<u8> },
    Rejected,
}

/// A peer proves its membership key when a synchronization session opens.
#[derive(Debug, PartialEq, Eq)]
pub struct AuthHello {
    pub version: u16,
    pub workspace_id: String,
    pub peer_id: PeerId,
    pub public_key: [u8; 32],
    pub endpoint_id: String,
    pub nonce: [u8; 32],
    pub remote_nonce: [u8; 32],
    pub signature: Vec<u8>,
}

/// A peer announces its document heads over gossip.
#[derive(Debug, PartialEq, Eq)]
pub struct GossipAnnouncement {
    pub version: u16,
    pub workspace_id: String,
    pub peer_id: PeerId,
    pub public_key: [u8; 32],
    pub endpoint_id: String,
    pub heads: Vec<String>,
    pub timestamp_ms: u64,
    pub signature: Vec<u8>,
}

/// The error, if any, that checking a signature reports.
pub open spec fn signature_error(check: SignatureCheck) -> Option<ProtocolError> {
    match check {
        SignatureCheck::Valid => None,
        SignatureCheck::InvalidPublicKey => Some(ProtocolError::InvalidPublicKey),
        SignatureCheck::InvalidSignatureLength => Some(ProtocolError::InvalidSignatureLength),
        SignatureCheck::InvalidSignature => Some(ProtocolError::InvalidSignature),
    }
}

/// What verifying a message reports: a wrong version or an empty workspace
/// is refused as `refusal`, then the signature over `payload` is checked.
pub open spec fn message_check(
    version: u16,
    workspace_id: Seq<char>,
    public_key: Seq<u8>,
    payload: Seq<u8>,
    signature: Seq<u8>,
    refusal: ProtocolError,
) -> Option<ProtocolError> {
    if version != PROTOCOL_VERSION || workspace_id.len() == 0 {
        Some(refusal)
    } else {
        signature_error(signature_check_spec(public_key, payload, signature))
    }
}

/// The result that a check stands for.
pub open spec fn as_result(check: Option<ProtocolError>) -> Result<(), ProtocolError> {
    match check {
        Some(e) => Err(e),
        None => Ok(()),
    }
}

/// Verify a signature over a payload.
pub fn verify_signature(public_key: &[u8; 32], payload: &[u8], signature: &[u8]) -> (result: Result<(), ProtocolError>)
    ensures
        result == as_result(signature_error(signature_check_spec(public_key@, payload@, signature@))),
{
    match check_signature(public_key, payload, signature) {
        SignatureCheck::Valid => Ok(()),
        SignatureCheck::InvalidPublicKey => Err(ProtocolError::InvalidPublicKey),
        SignatureCheck::InvalidSignatureLength => Err(ProtocolError::InvalidSignatureLength),
        SignatureCheck::InvalidSignature => Err(ProtocolError::InvalidSignature),
    }
}

fn verify_message(
    version: u16,
    workspace_id: &String,
    public_key: &[u8; 32],
    payload: &[u8],
    signature: &Vec<u8>,
    refusal: ProtocolError,
) -> (result: Result<(), ProtocolError>)
    ensures
        result == as_result(message_check(version, workspace_id@, public_key@, payload@, signature@, refusal)),
{
    if version != PROTOCOL_VERSION || workspace_id.as_str().is_empty() {
        return Err(refusal);
    }
    verify_signature(public_key, payload, signature.as_slice())
}

impl JoinRequest {
    /// Check the version, the workspace and the signature over `payload`,
    /// the canonical encoding of the request's unsigned fields.
    pub fn verify(&self, payload: &[u8]) -> (result: Result<(), ProtocolError>)
        ensures
            result == as_result(
                message_check(
                    self.version,
                    self.workspace_id@,
                    self.public_key@,
                    payload@,
                    self.signature@,
                    ProtocolError::InvalidJoinRequest,
                ),
            ),
    {
        verify_message(
            self.version,
            &self.workspace_id,
            &self.public_key,
            payload,
            &self.signature,
            ProtocolError::InvalidJoinRequest,
        )
    }
}

impl AuthHello {
    /// Check the version, the workspace and the signature over `payload`,
    /// the canonical encoding of the hello's unsigned fields.
    pub fn verify(&self, payload: &[u8]) -> (result: Result<(), ProtocolError>)
        ensures
            result == as_result(
                message_check(
                    self.version,
                    self.workspace_id@,
                    self.public_key@,
                    payload@,
                    self.signature@,
                    ProtocolError::InvalidAuthHello,
                ),
            ),
    {
        verify_message(
            self.version,
            &self.workspace_id,
            &self.public_key,
            payload,
            &self.signature,
            ProtocolError::InvalidAuthHello,
        )
    }
}

impl GossipAnnouncement {
    /// Check the version, the workspace and the signature over `payload`,
    /// the canonical encoding of the announcement's unsigned fields.
    pub fn verify(&self, payload: &[u8]) -> (result: Result<(), ProtocolError>)
        ensures
            result == as_result(
                message_check(
                    self.version,
                    self.workspace_id@,
                    self.public_key@,
                    payload@,
                    self.signature@,
                    ProtocolError::InvalidAnnouncement,
                ),
            ),
    {
        verify_message(
            self.version,
            &self.workspace_id,
            &self.public_key,
            payload,
            &self.signature,
            ProtocolError::InvalidAnnouncement,
        )
    }
}

/// Which error, if any, a decoded invitation meets: it must be of this
/// protocol version, name a workspace and list at least one bootstrap peer.
pub open spec fn invitation_error(version: u16, workspace_id: Seq<char>, bootstrap_peers: nat) -> Option<ProtocolError> {
    if version != PROTOCOL_VERSION || workspace_id.len() == 0 || bootstrap_peers == 0 {
        Some(ProtocolError::InvalidInvitation)
    } else {
        None
    }
}

/// Check the fields of a decoded invitation.
pub fn check_invitation(version: u16, workspace_id: &str, bootstrap_peers: usize) -> (result: Result<(), ProtocolError>)
    ensures
        result == as_result(invitation_error(version, workspace_id@, bootstrap_peers as nat)),
{
    if version != PROTOCOL_VERSION || workspace_id.is_empty() || bootstrap_peers == 0 {
        return Err(ProtocolError::InvalidInvitation);
    }
    Ok(())
}

/// The encoded invitation inside a ticket: the base64 of the trimmed text.
pub fn invitation_bytes(ticket: &str) -> (result: Result<Vec<u8>, ProtocolError>)
    ensures
        match base64_bytes(trim_spec(ticket@)) {
            Some(bytes) => result matches Ok(r) && r@ == bytes,
            None => result == Err::<Vec<u8>, ProtocolError>(ProtocolError::InvalidInvitation),
        },
{
    let text = trim(ticket);
    match base64_decode(text.as_str()) {
        Some(bytes) => Ok(bytes),
        None => Err(ProtocolError::InvalidInvitation),
    }
}

/// The ticket text for an encoded invitation, refused unless the invitation
/// is of this protocol version and lists a bootstrap peer.
pub fn invitation_ticket(version: u16, bootstrap_peers: usize, encoded: &[u8]) -> (result: Result<String, ProtocolError>)
    ensures
        version != PROTOCOL_VERSION || bootstrap_peers == 0 ==> result == Err::<String, ProtocolError>(ProtocolError::InvalidInvitation),
        version == PROTOCOL_VERSION && bootstrap_peers > 0 ==> (result matches Ok(t) && t@ == base64_text(encoded@)),
{
    if version != PROTOCOL_VERSION || bootstrap_peers == 0 {
        return Err(ProtocolError::InvalidInvitation);
    }
    Ok(base64_encode(encoded))
}


impl GossipAnnouncement {
    /// Announce heads as `identity`, signing `payload`, the canonical
    /// encoding of the announcement's unsigned fields. An announcement for a
    /// workspace verifies against the payload it was signed over.
    pub fn create(
        identity: &MembershipIdentity,
        workspace_id: String,
        endpoint_id: String,
        heads: Vec<String>,
        timestamp_ms: u64,
        payload: &[u8],
    ) -> (result: GossipAnnouncement)
        ensures
            result.version == PROTOCOL_VERSION,
            result.workspace_id == workspace_id,
            result.peer_id.view_chars() == identity.peer().view_chars(),
            result.public_key@ == ed25519_public(identity.secret_key()),
            result.endpoint_id == endpoint_id,
            result.heads == heads,
            result.timestamp_ms == timestamp_ms,
            result.signature@ == ed25519_signature(identity.secret_key(), payload@),
            workspace_id@.len() > 0 ==> message_check(
                result.version,
                result.workspace_id@,
                result.public_key@,
                payload@,
                result.signature@,
                ProtocolError::InvalidAnnouncement,
            ) is None,
    {
        let public_key = identity.public_key();
        let signature = identity.sign(payload);
        GossipAnnouncement {
            version: PROTOCOL_VERSION,
            workspace_id,
            peer_id: identity.peer_id().duplicate(),
            public_key,
            endpoint_id,
            heads,
            timestamp_ms,
            signature,
        }
    }
}

} // verus!
