//! Transport-neutral control frames for centralized Automerge synchronization.
//!
//! WebSocket text frames carry control messages. After the hello exchange,
//! binary frames contain opaque Automerge sync messages bounded by
//! [`MAX_SYNC_MESSAGE_BYTES`].

use vstd::prelude::*;
use vstd::string::StringSliceAdditionalSpecFns;
use vstd::utf8::encode_utf8;

verus! {

pub const SYNC_PROTOCOL_VERSION: u16 = 1;

pub const MAX_CONTROL_MESSAGE_BYTES: usize = 16384;

pub const MAX_SYNC_MESSAGE_BYTES: usize = 8388608;

/// Why a control or sync frame was rejected.
#[derive(Debug, PartialEq, Eq)]
pub enum SyncProtocolError {
    UnsupportedVersion(u16),
    InvalidClientId,
    InvalidWorkspaceId,
    InvalidErrorCode,
    InvalidErrorMessage,
    ControlTooLarge(usize),
    EmptySyncMessage,
    SyncMessageTooLarge(usize),
    /// The frame is not valid JSON for a control message.
    Json(String),
}

/// ASCII letters, digits, `.`, `_` and `-`.
pub open spec fn is_identifier_byte_spec(b: u8) -> bool {
    (48 <= b && b <= 57) || (65 <= b && b <= 90) || (97 <= b && b <= 122) || b == 46 || b == 95
        || b == 45
}

/// Whether `value` is 1 to `max` bytes of identifier bytes.
pub open spec fn valid_identifier(value: Seq<u8>, max: nat) -> bool {
    1 <= value.len() <= max && forall|i: int|
        0 <= i < value.len() ==> is_identifier_byte_spec(#[trigger] value[i])
}

pub fn is_identifier_byte(value: u8) -> (result: bool)
    ensures
        result == is_identifier_byte_spec(value),
{
    (48 <= value && value <= 57) || (65 <= value && value <= 90) || (97 <= value && value <= 122)
        || value == 46 || value == 95 || value == 45
}

/// Whether `value` holds 1 to `max` identifier bytes.
pub fn check_identifier(value: &str, max: usize) -> (result: bool)
    ensures
        result == valid_identifier(value.spec_bytes(), max as nat),
{
    let bytes = value.as_bytes();
    if bytes.len() == 0 || bytes.len() > max {
        return false;
    }
    let mut i: usize = 0;
    while i < bytes.len()
        invariant
            bytes@ == value.spec_bytes(),
            i <= bytes@.len(),
            forall|j: int| 0 <= j < i ==> is_identifier_byte_spec(#[trigger] bytes@[j]),
        decreases bytes@.len() - i,
    {
        if !is_identifier_byte(bytes[i]) {
            return false;
        }
        i = i + 1;
    }
    true
}

pub fn validate_version(version: u16) -> (result: Result<(), SyncProtocolError>)
    ensures
        version == SYNC_PROTOCOL_VERSION ==> result is Ok,
        version != SYNC_PROTOCOL_VERSION ==> result == Err::<(), SyncProtocolError>(
            SyncProtocolError::UnsupportedVersion(version),
        ),
{
    if version == SYNC_PROTOCOL_VERSION {
        Ok(())
    } else {
        Err(SyncProtocolError::UnsupportedVersion(version))
    }
}

pub fn validate_client_id(value: &str) -> (result: Result<(), SyncProtocolError>)
    ensures
        valid_identifier(value.spec_bytes(), 64) ==> result is Ok,
        !valid_identifier(value.spec_bytes(), 64) ==> result == Err::<(), SyncProtocolError>(
            SyncProtocolError::InvalidClientId,
        ),
{
    if check_identifier(value, 64) {
        Ok(())
    } else {
        Err(SyncProtocolError::InvalidClientId)
    }
}

pub fn validate_workspace_id(value: &str) -> (result: Result<(), SyncProtocolError>)
    ensures
        valid_identifier(value.spec_bytes(), 128) ==> result is Ok,
        !valid_identifier(value.spec_bytes(), 128) ==> result == Err::<(), SyncProtocolError>(
            SyncProtocolError::InvalidWorkspaceId,
        ),
{
    if check_identifier(value, 128) {
        Ok(())
    } else {
        Err(SyncProtocolError::InvalidWorkspaceId)
    }
}

/// Human-readable presence label. This is not a security identity.
#[derive(Debug, PartialEq, Eq)]
pub struct ClientId(String);

impl ClientId {
    /// The label.
    pub closed spec fn label(self) -> Seq<char> {
        self.0@
    }

    /// Every client ID holds a valid identifier.
    pub closed spec fn wf(self) -> bool {
        valid_identifier(encode_utf8(self.0@), 64)
    }

    pub fn parse(value: String) -> (result: Result<ClientId, SyncProtocolError>)
        ensures
            valid_identifier(encode_utf8(value@), 64) ==> (result matches Ok(id)
                && id.label() == value@ && id.wf()),
            !valid_identifier(encode_utf8(value@), 64) ==> result == Err::<
                ClientId,
                SyncProtocolError,
            >(SyncProtocolError::InvalidClientId),
    {
        match validate_client_id(value.as_str()) {
            Ok(()) => Ok(ClientId(value)),
            Err(error) => Err(error),
        }
    }

    pub fn as_str(&self) -> (result: &str)
        ensures
            result@ == self.label(),
    {
        self.0.as_str()
    }
}

/// A control frame of the synchronization protocol.
#[derive(Debug, PartialEq, Eq)]
pub enum ControlMessage {
    ClientHello { protocol_version: u16, client_id: String },
    ServerHello { protocol_version: u16, workspace_id: String, clients: Vec<String> },
    Presence { clients: Vec<String> },
    Error { code: String, message: String },
}

/// Which error, if any, validating a control message reports.
pub open spec fn control_validation(message: ControlMessage) -> Option<SyncProtocolError> {
    match message {
        ControlMessage::ClientHello { protocol_version, client_id } => {
            if protocol_version != SYNC_PROTOCOL_VERSION {
                Some(SyncProtocolError::UnsupportedVersion(protocol_version))
            } else if !valid_identifier(encode_utf8(client_id@), 64) {
                Some(SyncProtocolError::InvalidClientId)
            } else {
                None
            }
        },
        ControlMessage::ServerHello { protocol_version, workspace_id, clients } => {
            if protocol_version != SYNC_PROTOCOL_VERSION {
                Some(SyncProtocolError::UnsupportedVersion(protocol_version))
            } else if !valid_identifier(encode_utf8(workspace_id@), 128) {
                Some(SyncProtocolError::InvalidWorkspaceId)
            } else if exists|i: int|
                0 <= i < clients@.len() && !valid_identifier(
                    #[trigger] encode_utf8(clients@[i]@),
                    64,
                ) {
                Some(SyncProtocolError::InvalidClientId)
            } else {
                None
            }
        },
        ControlMessage::Presence { clients } => {
            if exists|i: int|
                0 <= i < clients@.len() && !valid_identifier(
                    #[trigger] encode_utf8(clients@[i]@),
                    64,
                ) {
                Some(SyncProtocolError::InvalidClientId)
            } else {
                None
            }
        },
        ControlMessage::Error { code, message } => {
            if !valid_identifier(encode_utf8(code@), 64) {
                Some(SyncProtocolError::InvalidErrorCode)
            } else if (encode_utf8(message@).len() as usize) == 0 || (encode_utf8(message@).len()
                as usize) > 1024 {
                Some(SyncProtocolError::InvalidErrorMessage)
            } else {
                None
            }
        },
    }
}

fn validate_clients(clients: &Vec<String>) -> (result: Result<(), SyncProtocolError>)
    ensures
        (forall|i: int|
            0 <= i < clients@.len() ==> valid_identifier(
                #[trigger] encode_utf8(clients@[i]@),
                64,
            )) ==> result is Ok,
        !(forall|i: int|
            0 <= i < clients@.len() ==> valid_identifier(
                #[trigger] encode_utf8(clients@[i]@),
                64,
            )) ==> result == Err::<(), SyncProtocolError>(SyncProtocolError::InvalidClientId),
{
    let mut i: usize = 0;
    while i < clients.len()
        invariant
            i <= clients@.len(),
            forall|j: int|
                0 <= j < i ==> valid_identifier(#[trigger] encode_utf8(clients@[j]@), 64),
        decreases clients@.len() - i,
    {
        if !check_identifier(clients[i].as_str(), 64) {
            return Err(SyncProtocolError::InvalidClientId);
        }
        i = i + 1;
    }
    Ok(())
}

impl ControlMessage {
    pub fn client_hello(client_id: String) -> (result: ControlMessage)
        ensures
            result == (ControlMessage::ClientHello {
                protocol_version: SYNC_PROTOCOL_VERSION,
                client_id,
            }),
    {
        ControlMessage::ClientHello { protocol_version: SYNC_PROTOCOL_VERSION, client_id }
    }

    pub fn server_hello(workspace_id: String, clients: Vec<String>) -> (result: ControlMessage)
        ensures
            result == (ControlMessage::ServerHello {
                protocol_version: SYNC_PROTOCOL_VERSION,
                workspace_id,
                clients,
            }),
    {
        ControlMessage::ServerHello {
            protocol_version: SYNC_PROTOCOL_VERSION,
            workspace_id,
            clients,
        }
    }

    pub fn validate(&self) -> (result: Result<(), SyncProtocolError>)
        ensures
            control_validation(*self) matches Some(error) ==> result == Err::<
                (),
                SyncProtocolError,
            >(error),
            control_validation(*self) is None ==> result is Ok,
    {
        match self {
            ControlMessage::ClientHello { protocol_version, client_id } => {
                match validate_version(*protocol_version) {
                    Ok(()) => validate_client_id(client_id.as_str()),
                    Err(error) => Err(error),
                }
            },
            ControlMessage::ServerHello { protocol_version, workspace_id, clients } => {
                match validate_version(*protocol_version) {
                    Ok(()) => match validate_workspace_id(workspace_id.as_str()) {
                        Ok(()) => validate_clients(clients),
                        Err(error) => Err(error),
                    },
                    Err(error) => Err(error),
                }
            },
            ControlMessage::Presence { clients } => validate_clients(clients),
            ControlMessage::Error { code, message } => {
                if !check_identifier(code.as_str(), 64) {
                    return Err(SyncProtocolError::InvalidErrorCode);
                }
                let length = message.as_str().len();
                if length == 0 || length > 1024 {
                    return Err(SyncProtocolError::InvalidErrorMessage);
                }
                Ok(())
            },
        }
    }
}

pub fn validate_sync_message(bytes: &[u8]) -> (result: Result<(), SyncProtocolError>)
    ensures
        bytes@.len() == 0 ==> result == Err::<(), SyncProtocolError>(
            SyncProtocolError::EmptySyncMessage,
        ),
        bytes@.len() > MAX_SYNC_MESSAGE_BYTES ==> result == Err::<(), SyncProtocolError>(
            SyncProtocolError::SyncMessageTooLarge(bytes@.len() as usize),
        ),
        0 < bytes@.len() <= MAX_SYNC_MESSAGE_BYTES ==> result is Ok,
{
    if bytes.len() == 0 {
        return Err(SyncProtocolError::EmptySyncMessage);
    }
    if bytes.len() > MAX_SYNC_MESSAGE_BYTES {
        return Err(SyncProtocolError::SyncMessageTooLarge(bytes.len()));
    }
    Ok(())
}

/// Check the size bound of an encoded control frame.
pub fn check_control_size(encoded: &str) -> (result: Result<(), SyncProtocolError>)
    ensures
        encoded.len() > MAX_CONTROL_MESSAGE_BYTES ==> result == Err::<
            (),
            SyncProtocolError,
        >(SyncProtocolError::ControlTooLarge(encoded.len())),
        encoded.len() <= MAX_CONTROL_MESSAGE_BYTES ==> result is Ok,
{
    let length = encoded.len();
    if length > MAX_CONTROL_MESSAGE_BYTES {
        Err(SyncProtocolError::ControlTooLarge(length))
    } else {
        Ok(())
    }
}

} // verus!
