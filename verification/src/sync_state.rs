//! Durable local synchronization operations and the stable frontend contract.
//!
//! The store itself lives beside a SQLite database; this module holds the
//! values it exchanges and the decisions made on what a query returned.

use vstd::prelude::*;

use crate::text::{chars_of, eq_str};

verus! {

/// A request from a frontend to the synchronization engine.
#[derive(Clone, Debug, PartialEq, Eq)]
pub enum SyncCommand {
    Connect { ticket: String },
    Refresh,
    Retry { operation_id: i64 },
}

/// How the local replica currently reaches its peers.
#[derive(Clone, Copy, Debug, PartialEq, Eq, Structural)]
pub enum Connectivity {
    Offline,
    Connecting,
    Direct,
    Relay,
}

/// The life cycle of a durable operation.
#[derive(Clone, Copy, Debug, PartialEq, Eq, Structural)]
pub enum OperationStatus {
    Pending,
    InFlight,
    Failed,
    Complete,
}

/// A queued operation that survives restarts.
#[derive(Clone, Debug, PartialEq, Eq)]
pub struct DurableOperation {
    pub id: i64,
    pub kind: String,
    pub target: String,
    pub status: OperationStatus,
    pub attempts: u32,
    pub last_error: Option<String>,
    pub created_ms: u64,
    pub attempted_ms: Option<u64>,
}

/// What a frontend shows about synchronization.
#[derive(Clone, Debug, PartialEq, Eq)]
pub struct SyncStatus {
    pub connectivity: Connectivity,
    pub converged: bool,
    pub pending_operations: usize,
    pub missing_blobs: Vec<String>,
}

/// A change that the engine reports to frontends.
#[derive(Clone, Debug, PartialEq, Eq)]
pub enum SyncEvent {
    StatusChanged(SyncStatus),
    OperationChanged(DurableOperation),
    MissingBlob { hash: String },
    BlobAvailable { hash: String },
}

/// The status that a stored status name denotes; unknown names read as pending.
pub open spec fn status_from_name(value: Seq<char>) -> OperationStatus {
    if value == "in_flight"@ {
        OperationStatus::InFlight
    } else if value == "failed"@ {
        OperationStatus::Failed
    } else if value == "complete"@ {
        OperationStatus::Complete
    } else {
        OperationStatus::Pending
    }
}

impl OperationStatus {
    /// Read a stored status name.
    pub fn parse(value: &str) -> (result: OperationStatus)
        ensures
            result == status_from_name(value@),
    {
        let chars = chars_of(value);
        if eq_str(chars.as_slice(), "in_flight") {
            OperationStatus::InFlight
        } else if eq_str(chars.as_slice(), "failed") {
            OperationStatus::Failed
        } else if eq_str(chars.as_slice(), "complete") {
            OperationStatus::Complete
        } else {
            OperationStatus::Pending
        }
    }
}

/// The stored name of each connectivity state.
pub open spec fn connectivity_name_spec(value: Connectivity) -> Seq<char> {
    match value {
        Connectivity::Offline => "offline"@,
        Connectivity::Connecting => "connecting"@,
        Connectivity::Direct => "direct"@,
        Connectivity::Relay => "relay"@,
    }
}

/// The connectivity state that a stored name denotes; unknown names read as offline.
pub open spec fn connectivity_from_name(value: Seq<char>) -> Connectivity {
    if value == "connecting"@ {
        Connectivity::Connecting
    } else if value == "direct"@ {
        Connectivity::Direct
    } else if value == "relay"@ {
        Connectivity::Relay
    } else {
        Connectivity::Offline
    }
}

pub fn connectivity_name(value: &Connectivity) -> (result: &'static str)
    ensures
        result@ == connectivity_name_spec(*value),
{
    match value {
        Connectivity::Offline => "offline",
        Connectivity::Connecting => "connecting",
        Connectivity::Direct => "direct",
        Connectivity::Relay => "relay",
    }
}

pub fn parse_connectivity(value: &str) -> (result: Connectivity)
    ensures
        result == connectivity_from_name(value@),
{
    let chars = chars_of(value);
    if eq_str(chars.as_slice(), "connecting") {
        Connectivity::Connecting
    } else if eq_str(chars.as_slice(), "direct") {
        Connectivity::Direct
    } else if eq_str(chars.as_slice(), "relay") {
        Connectivity::Relay
    } else {
        Connectivity::Offline
    }
}

/// Reading back a stored connectivity name gives the state that was stored.
pub proof fn lemma_connectivity_round_trip(value: Connectivity)
    ensures
        connectivity_from_name(connectivity_name_spec(value)) == value,
{
    reveal_strlit("offline");
    reveal_strlit("connecting");
    reveal_strlit("direct");
    reveal_strlit("relay");
    assert("offline"@[0] != "connecting"@[0]);
    assert("offline"@[0] != "direct"@[0]);
    assert("offline"@[0] != "relay"@[0]);
    assert("direct"@[0] != "connecting"@[0]);
    assert("relay"@[0] != "connecting"@[0]);
    assert("relay"@[0] != "direct"@[0]);
}

/// A millisecond count as SQLite stores it: values past `i64::MAX` saturate.
pub fn sqlite_ms(value: u64) -> (result: i64)
    ensures
        value <= i64::MAX ==> result == value,
        value > i64::MAX ==> result == i64::MAX,
{
    if value <= 9223372036854775807u64 {
        value as i64
    } else {
        i64::MAX
    }
}

/// A stored millisecond count read back: negative values read as absent.
pub fn stored_ms(value: i64) -> (result: Option<u64>)
    ensures
        value >= 0 ==> result == Some(value as u64),
        value < 0 ==> result is None,
{
    if value >= 0 {
        Some(value as u64)
    } else {
        None
    }
}

/// Build an operation from the columns of its stored row.
pub fn operation_from_columns(
    id: i64,
    kind: String,
    target: String,
    status: &str,
    attempts: u32,
    last_error: Option<String>,
    created_ms: i64,
    attempted_ms: Option<i64>,
) -> (result: DurableOperation)
    ensures
        result.id == id,
        result.kind == kind,
        result.target == target,
        result.status == status_from_name(status@),
        result.attempts == attempts,
        result.last_error == last_error,
        result.created_ms == (if created_ms >= 0 { created_ms as u64 } else { 0 }),
        result.attempted_ms == (match attempted_ms {
            Some(v) => if v >= 0 { Some(v as u64) } else { None },
            None => None,
        }),
{
    let created = match stored_ms(created_ms) {
        Some(v) => v,
        None => 0,
    };
    let attempted = match attempted_ms {
        Some(v) => stored_ms(v),
        None => None,
    };
    DurableOperation {
        id,
        kind,
        target,
        status: OperationStatus::parse(status),
        attempts,
        last_error,
        created_ms: created,
        attempted_ms: attempted,
    }
}

/// The status reported from the stored connectivity name, the number of
/// operations that are not complete, and the missing blobs.
pub fn status_from_store(connectivity: Option<String>, pending: i64, missing_blobs: Vec<String>) -> (result: SyncStatus)
    ensures
        result.connectivity == (match connectivity {
            Some(name) => connectivity_from_name(name@),
            None => Connectivity::Offline,
        }),
        result.converged == (pending == 0 && missing_blobs@.len() == 0),
        pending < 0 ==> result.pending_operations == usize::MAX,
        0 <= pending <= usize::MAX ==> result.pending_operations == pending,
        pending > usize::MAX ==> result.pending_operations == usize::MAX,
        result.missing_blobs == missing_blobs,
{
    let state = match &connectivity {
        Some(name) => parse_connectivity(name.as_str()),
        None => Connectivity::Offline,
    };
    let converged = pending == 0 && missing_blobs.len() == 0;
    let count: usize = if pending < 0 {
        usize::MAX
    } else if (pending as u64) > (usize::MAX as u64) {
        usize::MAX
    } else {
        pending as usize
    };
    SyncStatus { connectivity: state, converged, pending_operations: count, missing_blobs }
}

} // verus!
