//! Peer identity and signed workspace-membership events.

use vstd::prelude::*;

use crate::crypto::{
    blake3_hex, check_signature, ed25519_key_valid, ed25519_public, ed25519_public_key, ed25519_sign, ed25519_signature,
    fingerprint_spec, random_secret, signature_check_spec, SignatureCheck,
};
use crate::domain::{ActorId, WorkspaceId};
use crate::hlc::Hlc;
use crate::text::{
    lemma_sorted_insert, sorted_position, ascii_alnum, chars_of, clone_strings, compare_str, find_string, insert_sorted,
    is_ascii_alnum, lemma_index_of_insert, lemma_index_of_remove, lemma_remove_no_duplicates, lemma_lex_order_antisym,
    lemma_lex_order_trans, lemma_sorted_no_duplicates, lex_order, string_views, strictly_sorted,
    Order,
};

verus! {

pub const PEER_ID_MAX_LEN: usize = 64;

/// Why a peer identifier or membership event was rejected.
#[derive(Clone, Debug, PartialEq, Eq)]
pub enum MembershipError {
    InvalidPeerIdLength,
    InvalidPeerIdCharacter,
    Encoding(String),
    EventIdMismatch,
    IssuerMismatch,
    InvalidSignatureLength,
    InvalidSignature,
    InvalidPublicKey,
    UnauthorizedEvent,
    UnknownMember,
    DuplicateMember,
    DuplicatePeerId,
}

/// ASCII letters, digits, `.`, `_` and `-`.
pub open spec fn is_peer_id_char(c: char) -> bool {
    is_ascii_alnum(c) || c == '.' || c == '_' || c == '-'
}

/// Which error, if any, parsing a peer ID reports.
pub open spec fn peer_id_check(value: Seq<char>) -> Option<MembershipError> {
    if !(1 <= value.len() <= 64) {
        Some(MembershipError::InvalidPeerIdLength)
    } else if exists|i: int| 0 <= i < value.len() && !is_peer_id_char(#[trigger] value[i]) {
        Some(MembershipError::InvalidPeerIdCharacter)
    } else {
        None
    }
}

/// A required, human-readable node identifier. Cryptographic identity uses
/// the membership key.
#[derive(Debug, PartialEq, Eq)]
pub struct PeerId(String);

impl PeerId {
    /// The identifier's characters.
    pub closed spec fn view_chars(self) -> Seq<char> {
        self.0@
    }

    pub fn parse(value: String) -> (result: Result<PeerId, MembershipError>)
        ensures
            peer_id_check(value@) matches Some(e) ==> result == Err::<PeerId, MembershipError>(e),
            peer_id_check(value@) is None ==> (result matches Ok(id) && id.view_chars()
                == value@),
    {
        let chars = chars_of(value.as_str());
        if chars.len() < 1 || chars.len() > PEER_ID_MAX_LEN {
            return Err(MembershipError::InvalidPeerIdLength);
        }
        let mut i: usize = 0;
        while i < chars.len()
            invariant
                chars@ == value@,
                1 <= chars@.len() <= 64,
                i <= chars@.len(),
                forall|j: int| 0 <= j < i ==> is_peer_id_char(#[trigger] chars@[j]),
            decreases chars@.len() - i,
        {
            let c = chars[i];
            if !(ascii_alnum(c) || c == '.' || c == '_' || c == '-') {
                assert(!is_peer_id_char(value@[i as int]));
                return Err(MembershipError::InvalidPeerIdCharacter);
            }
            i = i + 1;
        }
        Ok(PeerId(value))
    }

    pub fn as_str(&self) -> (result: &str)
        ensures
            result@ == self.view_chars(),
    {
        self.0.as_str()
    }

    pub fn duplicate(&self) -> (result: PeerId)
        ensures
            result.view_chars() == self.view_chars(),
    {
        PeerId(self.0.clone())
    }
}

/// Whether two 32-byte keys are equal.
pub fn bytes_eq(a: &[u8; 32], b: &[u8; 32]) -> (result: bool)
    ensures
        result == (a@ == b@),
{
    let mut i: usize = 0;
    while i < 32
        invariant
            a@.len() == 32,
            b@.len() == 32,
            i <= 32,
            forall|j: int| 0 <= j < i ==> a@[j] == b@[j],
        decreases 32 - i,
    {
        if a[i] != b[i] {
            return false;
        }
        i = i + 1;
    }
    assert(a@ =~= b@);
    true
}

/// The hexadecimal BLAKE3 fingerprint of a membership public key.
pub fn public_key_fingerprint(public_key: &[u8; 32]) -> (result: String)
    ensures
        result@ == fingerprint_spec(public_key@),
{
    blake3_hex(public_key)
}

/// The payload of a membership event.
#[derive(Debug, PartialEq, Eq)]
pub enum MembershipEvent {
    Genesis { peer_id: PeerId, public_key: [u8; 32], endpoint_id: String },
    JoinApproved { peer_id: PeerId, public_key: [u8; 32], endpoint_id: String },
    JoinRejected { peer_id: PeerId, public_key: [u8; 32] },
    EndpointBound { public_key: [u8; 32], endpoint_id: String },
    PeerRemoved {
        peer_id: PeerId,
        public_key: [u8; 32],
        accepted_actor_sequence: u64,
        accepted_heads: Vec<String>,
        reason: Option<String>,
    },
}

/// A membership event with its content identifier and issuer signature.
#[derive(Debug, PartialEq, Eq)]
pub struct SignedMembershipEvent {
    pub workspace_id: WorkspaceId,
    pub event_id: String,
    pub issuer: String,
    pub issuer_public_key: [u8; 32],
    pub issued_at: Hlc,
    pub payload: MembershipEvent,
    pub signature: Vec<u8>,
}

/// Which error, if any, verifying `event` reports, where `canonical` is the
/// canonical encoding of its unsigned part (workspace, issuer, issue time and
/// payload).
pub open spec fn event_check(event: SignedMembershipEvent, canonical: Seq<u8>) -> Option<
    MembershipError,
> {
    if event.issuer@ != fingerprint_spec(event.issuer_public_key@) {
        Some(MembershipError::IssuerMismatch)
    } else if event.event_id@ != fingerprint_spec(canonical) {
        Some(MembershipError::EventIdMismatch)
    } else {
        match signature_check_spec(event.issuer_public_key@, canonical, event.signature@) {
            SignatureCheck::InvalidPublicKey => Some(MembershipError::InvalidPublicKey),
            SignatureCheck::InvalidSignatureLength => Some(MembershipError::InvalidSignatureLength),
            SignatureCheck::InvalidSignature => Some(MembershipError::InvalidSignature),
            SignatureCheck::Valid => None,
        }
    }
}

impl SignedMembershipEvent {
    /// Verify the issuer binding, the content identifier and the signature.
    /// `canonical` is the canonical CBOR encoding of the unsigned event.
    pub fn verify(&self, canonical: &[u8]) -> (result: Result<(), MembershipError>)
        ensures
            event_check(*self, canonical@) matches Some(e) ==> result == Err::<
                (),
                MembershipError,
            >(e),
            event_check(*self, canonical@) is None ==> result is Ok,
    {
        let expected_issuer = public_key_fingerprint(&self.issuer_public_key);
        if self.issuer != expected_issuer {
            return Err(MembershipError::IssuerMismatch);
        }
        let expected_id = blake3_hex(canonical);
        if self.event_id != expected_id {
            return Err(MembershipError::EventIdMismatch);
        }
        match check_signature(&self.issuer_public_key, canonical, self.signature.as_slice()) {
            SignatureCheck::InvalidPublicKey => Err(MembershipError::InvalidPublicKey),
            SignatureCheck::InvalidSignatureLength => Err(MembershipError::InvalidSignatureLength),
            SignatureCheck::InvalidSignature => Err(MembershipError::InvalidSignature),
            SignatureCheck::Valid => Ok(()),
        }
    }
}

#[derive(Clone, Copy, Debug, PartialEq, Eq, Structural)]
pub enum MemberStatus {
    Active,
    Rejected,
    Removed,
}

/// A member of the workspace as the registry records it.
#[derive(Debug, PartialEq, Eq)]
pub struct Member {
    pub peer_id: PeerId,
    pub public_key: [u8; 32],
    /// Endpoint identifiers, in ascending order without repetition.
    pub endpoint_ids: Vec<String>,
    pub status: MemberStatus,
    pub accepted_actor_sequence: Option<u64>,
    pub accepted_heads: Vec<String>,
}

/// The abstract value of a member.
pub struct MemberView {
    pub peer_id: Seq<char>,
    pub public_key: Seq<u8>,
    pub endpoints: Set<Seq<char>>,
    pub status: MemberStatus,
    pub accepted_actor_sequence: Option<u64>,
    pub accepted_heads: Seq<Seq<char>>,
}

impl Member {
    pub open spec fn view(self) -> MemberView {
        MemberView {
            peer_id: self.peer_id.view_chars(),
            public_key: self.public_key@,
            endpoints: string_views(self.endpoint_ids@).to_set(),
            status: self.status,
            accepted_actor_sequence: self.accepted_actor_sequence,
            accepted_heads: string_views(self.accepted_heads@),
        }
    }

    pub open spec fn wf(self) -> bool {
        strictly_sorted(string_views(self.endpoint_ids@))
    }
}

/// The abstract state of a registry: members by key fingerprint, the
/// fingerprint holding each active peer ID, and the applied event IDs.
pub struct RegistryView {
    pub members: Map<Seq<char>, MemberView>,
    pub peers: Map<Seq<char>, Seq<char>>,
    pub events: Set<Seq<char>>,
}

/// The abstract value of a freshly registered member.
pub open spec fn new_member(peer_id: Seq<char>, public_key: Seq<u8>, endpoint: Seq<char>, status: MemberStatus) -> MemberView {
    MemberView {
        peer_id,
        public_key,
        endpoints: if endpoint.len() == 0 {
            Set::empty()
        } else {
            set![endpoint]
        },
        status,
        accepted_actor_sequence: None,
        accepted_heads: seq![],
    }
}

/// Registering a member: refused if its key is known, or if it would be an
/// active member with a peer ID already held.
pub open spec fn insert_step(
    s: RegistryView,
    peer_id: Seq<char>,
    public_key: Seq<u8>,
    endpoint: Seq<char>,
    status: MemberStatus,
) -> Result<RegistryView, MembershipError> {
    let f = fingerprint_spec(public_key);
    if s.members.contains_key(f) {
        Err(MembershipError::DuplicateMember)
    } else if status == MemberStatus::Active && s.peers.contains_key(peer_id) {
        Err(MembershipError::DuplicatePeerId)
    } else {
        Ok(
            RegistryView {
                members: s.members.insert(f, new_member(peer_id, public_key, endpoint, status)),
                peers: if status == MemberStatus::Active {
                    s.peers.insert(peer_id, f)
                } else {
                    s.peers
                },
                events: s.events,
            },
        )
    }
}

/// Whether `issuer` is an active member.
pub open spec fn is_active(s: RegistryView, issuer: Seq<char>) -> bool {
    s.members.contains_key(issuer) && s.members[issuer].status == MemberStatus::Active
}

/// The effect of the payload of a verified, not yet applied event.
pub open spec fn payload_step(s: RegistryView, event: SignedMembershipEvent) -> Result<RegistryView, MembershipError> {
    let issuer = event.issuer@;
    match event.payload {
        MembershipEvent::Genesis { peer_id, public_key, endpoint_id } => {
            if s.members.dom() != Set::<Seq<char>>::empty() || public_key@ != event.issuer_public_key@
                || fingerprint_spec(public_key@) != issuer {
                Err(MembershipError::UnauthorizedEvent)
            } else {
                insert_step(s, peer_id.view_chars(), public_key@, endpoint_id@, MemberStatus::Active)
            }
        },
        MembershipEvent::JoinApproved { peer_id, public_key, endpoint_id } => {
            if !is_active(s, issuer) {
                Err(MembershipError::UnauthorizedEvent)
            } else {
                insert_step(s, peer_id.view_chars(), public_key@, endpoint_id@, MemberStatus::Active)
            }
        },
        MembershipEvent::JoinRejected { peer_id, public_key } => {
            if !is_active(s, issuer) {
                Err(MembershipError::UnauthorizedEvent)
            } else {
                insert_step(s, peer_id.view_chars(), public_key@, seq![], MemberStatus::Rejected)
            }
        },
        MembershipEvent::EndpointBound { public_key, endpoint_id } => {
            let f = fingerprint_spec(public_key@);
            if issuer != f {
                Err(MembershipError::UnauthorizedEvent)
            } else if !is_active(s, f) {
                Err(MembershipError::UnknownMember)
            } else {
                let m = s.members[f];
                Ok(
                    RegistryView {
                        members: s.members.insert(
                            f,
                            MemberView { endpoints: m.endpoints.insert(endpoint_id@), ..m },
                        ),
                        ..s
                    },
                )
            }
        },
        MembershipEvent::PeerRemoved {
            peer_id,
            public_key,
            accepted_actor_sequence,
            accepted_heads,
            reason,
        } => {
            let f = fingerprint_spec(public_key@);
            if !is_active(s, issuer) {
                Err(MembershipError::UnauthorizedEvent)
            } else if !(s.members.contains_key(f) && s.members[f].peer_id == peer_id.view_chars()) {
                Err(MembershipError::UnknownMember)
            } else {
                let m = s.members[f];
                Ok(
                    RegistryView {
                        members: s.members.insert(
                            f,
                            MemberView {
                                status: MemberStatus::Removed,
                                accepted_actor_sequence: Some(accepted_actor_sequence),
                                accepted_heads: string_views(accepted_heads@),
                                ..m
                            },
                        ),
                        peers: s.peers.remove(peer_id.view_chars()),
                        events: s.events,
                    },
                )
            }
        },
    }
}

/// Applying a signed event to a registry: the new state and the result.
/// `checked` is the outcome of verifying the event's signature and identifiers.
pub open spec fn apply_step(s: RegistryView, event: SignedMembershipEvent, checked: Option<MembershipError>) -> (RegistryView, Result<bool, MembershipError>) {
    if checked is Some {
        (s, Err(checked->0))
    } else if s.events.contains(event.event_id@) {
        (s, Ok(false))
    } else {
        match payload_step(s, event) {
            Err(e) => (s, Err(e)),
            Ok(t) => (RegistryView { events: t.events.insert(event.event_id@), ..t }, Ok(true)),
        }
    }
}

/// Applying an event a second time changes nothing and reports it as old.
pub proof fn lemma_apply_idempotent(s: RegistryView, event: SignedMembershipEvent)
    requires
        apply_step(s, event, None).1 is Ok,
    ensures
        apply_step(apply_step(s, event, None).0, event, None) == (apply_step(s, event, None).0, Ok::<bool, MembershipError>(false)),
{
}

/// A rejected event leaves the registry unchanged.
pub proof fn lemma_rejected_event_changes_nothing(s: RegistryView, event: SignedMembershipEvent, checked: Option<MembershipError>)
    requires
        apply_step(s, event, checked).1 is Err,
    ensures
        apply_step(s, event, checked).0 == s,
{
}

/// Members are never forgotten, and removal is terminal: a removed member
/// stays removed whatever event follows.
pub proof fn lemma_removal_is_terminal(s: RegistryView, event: SignedMembershipEvent, checked: Option<MembershipError>, f: Seq<char>)
    requires
        s.members.contains_key(f),
    ensures
        apply_step(s, event, checked).0.members.contains_key(f),
        s.members[f].status == MemberStatus::Removed ==> apply_step(s, event, checked).0.members[f].status == MemberStatus::Removed,
        s.members[f].status == MemberStatus::Rejected ==> apply_step(s, event, checked).0.members[f].status != MemberStatus::Active,
{
}

/// Only the founding event may act without an active issuer: any other
/// event whose issuer is not an active member leaves the registry unchanged.
pub proof fn lemma_inactive_issuers_change_nothing(s: RegistryView, event: SignedMembershipEvent, checked: Option<MembershipError>)
    requires
        !is_active(s, event.issuer@),
        !(event.payload is Genesis),
    ensures
        apply_step(s, event, checked).0.members == s.members,
        apply_step(s, event, checked).0.peers == s.peers,
{
}

/// The peer table names exactly the active members, by their peer IDs.
pub open spec fn peers_consistent(s: RegistryView) -> bool {
    &&& forall|p: Seq<char>| #[trigger] s.peers.contains_key(p) ==> is_active(s, s.peers[p]) && s.members[s.peers[p]].peer_id == p
    &&& forall|f: Seq<char>| #[trigger] is_active(s, f) ==> s.peers.contains_key(s.members[f].peer_id) && s.peers[s.members[f].peer_id] == f
}

/// Active peer IDs stay unique: the peer table stays consistent under every
/// event except the removal of a member that is not active (whose peer ID
/// may be held by another, active member).
pub proof fn lemma_active_peer_ids_stay_unique(s: RegistryView, event: SignedMembershipEvent, checked: Option<MembershipError>)
    requires
        peers_consistent(s),
        !(event.payload matches MembershipEvent::PeerRemoved { public_key, .. } && !is_active(s, fingerprint_spec(public_key@))),
    ensures
        peers_consistent(apply_step(s, event, checked).0),
{
    if checked is None && !s.events.contains(event.event_id@) && payload_step(s, event) is Ok {
        let t = payload_step(s, event)->Ok_0;
        match event.payload {
            MembershipEvent::PeerRemoved { peer_id, public_key, .. } => {
                let f = fingerprint_spec(public_key@);
                let pid = peer_id.view_chars();
                assert(s.peers[s.members[f].peer_id] == f);
                assert forall|p: Seq<char>| #[trigger] t.peers.contains_key(p) implies is_active(t, t.peers[p]) && t.members[t.peers[p]].peer_id == p by {
                    assert(p != pid);
                    let g = s.peers[p];
                    assert(is_active(s, g) && s.members[g].peer_id == p);
                    assert(g != f);
                }
                assert forall|g: Seq<char>| #[trigger] is_active(t, g) implies t.peers.contains_key(t.members[g].peer_id) && t.peers[t.members[g].peer_id] == g by {
                    assert(g != f);
                    assert(is_active(s, g));
                    assert(s.peers[s.members[g].peer_id] == g);
                }
            },
            MembershipEvent::EndpointBound { public_key, endpoint_id } => {
                let f = fingerprint_spec(public_key@);
                assert forall|p: Seq<char>| #[trigger] t.peers.contains_key(p) implies is_active(t, t.peers[p]) && t.members[t.peers[p]].peer_id == p by {
                    assert(is_active(s, s.peers[p]));
                }
                assert forall|g: Seq<char>| #[trigger] is_active(t, g) implies t.peers.contains_key(t.members[g].peer_id) && t.peers[t.members[g].peer_id] == g by {
                    assert(is_active(s, g));
                }
            },
            MembershipEvent::Genesis { peer_id, public_key, endpoint_id } => {
                lemma_insert_keeps_peers_consistent(s, peer_id.view_chars(), public_key@, endpoint_id@, MemberStatus::Active);
            },
            MembershipEvent::JoinApproved { peer_id, public_key, endpoint_id } => {
                lemma_insert_keeps_peers_consistent(s, peer_id.view_chars(), public_key@, endpoint_id@, MemberStatus::Active);
            },
            MembershipEvent::JoinRejected { peer_id, public_key } => {
                lemma_insert_keeps_peers_consistent(s, peer_id.view_chars(), public_key@, seq![], MemberStatus::Rejected);
            },
        }
        assert(peers_consistent(t));
        let u = apply_step(s, event, checked).0;
        assert(u.members == t.members && u.peers == t.peers);
        assert forall|p: Seq<char>| #[trigger] u.peers.contains_key(p) implies is_active(u, u.peers[p]) && u.members[u.peers[p]].peer_id == p by {
            assert(t.peers.contains_key(p));
            assert(is_active(t, t.peers[p]));
        }
        assert forall|g: Seq<char>| #[trigger] is_active(u, g) implies u.peers.contains_key(u.members[g].peer_id) && u.peers[u.members[g].peer_id] == g by {
            assert(is_active(t, g));
        }
    }
}

proof fn lemma_insert_keeps_peers_consistent(s: RegistryView, peer_id: Seq<char>, public_key: Seq<u8>, endpoint: Seq<char>, status: MemberStatus)
    requires
        peers_consistent(s),
        insert_step(s, peer_id, public_key, endpoint, status) is Ok,
    ensures
        peers_consistent(insert_step(s, peer_id, public_key, endpoint, status)->Ok_0),
{
    let t = insert_step(s, peer_id, public_key, endpoint, status)->Ok_0;
    let f = fingerprint_spec(public_key);
    assert forall|p: Seq<char>| #[trigger] t.peers.contains_key(p) implies is_active(t, t.peers[p]) && t.members[t.peers[p]].peer_id == p by {
        if !(status == MemberStatus::Active && p == peer_id) {
            let g = s.peers[p];
            assert(is_active(s, g));
            assert(g != f);
        }
    }
    assert forall|g: Seq<char>| #[trigger] is_active(t, g) implies t.peers.contains_key(t.members[g].peer_id) && t.peers[t.members[g].peer_id] == g by {
        if g != f {
            assert(is_active(s, g));
            let p = s.members[g].peer_id;
            assert(s.peers[p] == g);
            if status == MemberStatus::Active {
                assert(p != peer_id);
            }
        }
    }
}

/// Two active members never share a peer ID while the peer table is consistent.
pub proof fn lemma_consistent_peers_are_unique(s: RegistryView, f: Seq<char>, g: Seq<char>)
    requires
        peers_consistent(s),
        is_active(s, f),
        is_active(s, g),
        s.members[f].peer_id == s.members[g].peer_id,
    ensures
        f == g,
{
}

/// The replicated membership state of a workspace, derived from signed events.
pub struct MembershipRegistry {
    /// Key fingerprints of the members, ascending; `members[i]` belongs to `fingerprints[i]`.
    fingerprints: Vec<String>,
    members: Vec<Member>,
    peer_keys: Vec<String>,
    peer_values: Vec<String>,
    events: Vec<String>,
}

impl MembershipRegistry {
    pub closed spec fn view(self) -> RegistryView {
        RegistryView {
            members: Map::new(
                |f: Seq<char>| string_views(self.fingerprints@).contains(f),
                |f: Seq<char>|
                    self.members@[string_views(self.fingerprints@).index_of(f)].view(),
            ),
            peers: Map::new(
                |p: Seq<char>| string_views(self.peer_keys@).contains(p),
                |p: Seq<char>| self.peer_values@[string_views(self.peer_keys@).index_of(p)]@,
            ),
            events: string_views(self.events@).to_set(),
        }
    }

    pub closed spec fn wf(self) -> bool {
        &&& strictly_sorted(string_views(self.fingerprints@))
        &&& self.fingerprints@.len() == self.members@.len()
        &&& forall|i: int| 0 <= i < self.members@.len() ==> (#[trigger] self.members@[i]).wf()
        &&& self.peer_keys@.len() == self.peer_values@.len()
        &&& string_views(self.peer_keys@).no_duplicates()
    }

    pub fn new() -> (result: Self)
        ensures
            result.wf(),
            result.view().members == Map::<Seq<char>, MemberView>::empty(),
            result.view().peers == Map::<Seq<char>, Seq<char>>::empty(),
            result.view().events == Set::<Seq<char>>::empty(),
    {
        let result = MembershipRegistry {
            fingerprints: Vec::new(),
            members: Vec::new(),
            peer_keys: Vec::new(),
            peer_values: Vec::new(),
            events: Vec::new(),
        };
        proof {
            assert(result.view().members =~= Map::<Seq<char>, MemberView>::empty());
            assert(result.view().peers =~= Map::<Seq<char>, Seq<char>>::empty());
            assert(result.view().events =~= Set::<Seq<char>>::empty());
        }
        result
    }

    /// Member key fingerprints in ascending order.
    pub closed spec fn member_keys(self) -> Seq<Seq<char>> {
        string_views(self.fingerprints@)
    }

    proof fn lemma_view_member(self, k: int)
        requires
            self.wf(),
            0 <= k < self.fingerprints@.len(),
        ensures
            self.view().members.contains_key(self.fingerprints@[k]@),
            self.view().members[self.fingerprints@[k]@] == self.members@[k].view(),
    {
        let keys = string_views(self.fingerprints@);
        lemma_sorted_no_duplicates(keys);
        assert(keys[k] == self.fingerprints@[k]@);
        assert(keys.contains(keys[k]));
        keys.index_of_first_ensures(keys[k]);
    }

    /// Position of the member with key fingerprint `fingerprint`.
    fn find_member(&self, fingerprint: &str) -> (result: Option<usize>)
        requires
            self.wf(),
        ensures
            result is None ==> !self.view().members.contains_key(fingerprint@),
            result matches Some(k) ==> k < self.members@.len() && self.fingerprints@[k as int]@
                == fingerprint@ && self.view().members.contains_key(fingerprint@)
                && self.view().members[fingerprint@] == self.members@[k as int].view(),
    {
        let found = find_string(&self.fingerprints, fingerprint);
        match found {
            Some(k) => {
                proof {
                    self.lemma_view_member(k as int);
                }
                Some(k)
            },
            None => None,
        }
    }

    #[verifier::rlimit(20)]
    pub fn member(&self, fingerprint: &str) -> (result: Option<&Member>)
        requires
            self.wf(),
        ensures
            result is None <==> !self.view().members.contains_key(fingerprint@),
            result matches Some(m) ==> m.view() == self.view().members[fingerprint@],
    {
        match self.find_member(fingerprint) {
            Some(k) => Some(&self.members[k]),
            None => None,
        }
    }

    /// All members, in ascending order of key fingerprint.
    pub fn members(&self) -> (result: &[Member])
        requires
            self.wf(),
        ensures
            result@.len() == self.member_keys().len(),
            strictly_sorted(self.member_keys()),
            self.member_keys().to_set() == self.view().members.dom(),
            forall|i: int|
                0 <= i < result@.len() ==> (#[trigger] result@[i]).view() == self.view().members[self.member_keys()[i]],
    {
        proof {
            assert forall|i: int| 0 <= i < self.members@.len() implies (#[trigger] self.members@[i]).view()
                == self.view().members[self.member_keys()[i]] by {
                self.lemma_view_member(i);
            }
            assert(self.member_keys().to_set() =~= self.view().members.dom());
        }
        self.members.as_slice()
    }

    /// Position of the active peer ID `peer_id` in the peer table.
    fn find_peer(&self, peer_id: &str) -> (result: Option<usize>)
        requires
            self.wf(),
        ensures
            result is None ==> !self.view().peers.contains_key(peer_id@),
            result matches Some(k) ==> k < self.peer_keys@.len() && self.peer_keys@[k as int]@
                == peer_id@ && self.view().peers.contains_key(peer_id@),
    {
        let found = find_string(&self.peer_keys, peer_id);
        proof {
            if let Some(k) = found {
                assert(string_views(self.peer_keys@)[k as int] == peer_id@);
            }
        }
        found
    }

    fn insert_member(
        &mut self,
        peer_id: &PeerId,
        public_key: &[u8; 32],
        endpoint_id: &str,
        status: MemberStatus,
    ) -> (result: Result<(), MembershipError>)
        requires
            old(self).wf(),
        ensures
            final(self).wf(),
            insert_step(old(self).view(), peer_id.view_chars(), public_key@, endpoint_id@, status) matches Ok(t) ==> result is Ok && final(self).view() == t,
            insert_step(old(self).view(), peer_id.view_chars(), public_key@, endpoint_id@, status) matches Err(e) ==> result == Err::<(), MembershipError>(e) && final(self).view() == old(self).view(),
    {
        let fingerprint = public_key_fingerprint(public_key);
        if self.find_member(fingerprint.as_str()).is_some() {
            return Err(MembershipError::DuplicateMember);
        }
        let active = match status {
            MemberStatus::Active => true,
            _ => false,
        };
        if active && self.find_peer(peer_id.as_str()).is_some() {
            return Err(MembershipError::DuplicatePeerId);
        }
        let mut endpoint_ids: Vec<String> = Vec::new();
        if !endpoint_id.is_empty() {
            endpoint_ids.push(endpoint_id.to_owned());
        }
        let member = Member {
            peer_id: peer_id.duplicate(),
            public_key: *public_key,
            endpoint_ids,
            status,
            accepted_actor_sequence: None,
            accepted_heads: Vec::new(),
        };
        let ghost old_view = self.view();
        let ghost old_keys = string_views(self.fingerprints@);
        let ghost old_members = self.members@;
        let ghost old_peer_keys = string_views(self.peer_keys@);
        let ghost old_peer_values = self.peer_values@;
        let ghost mv = new_member(peer_id.view_chars(), public_key@, endpoint_id@, status);
        proof {
            assert(member.view().endpoints =~= mv.endpoints) by {
                if endpoint_id@.len() != 0 {
                    assert(string_views(member.endpoint_ids@) =~= seq![endpoint_id@]);
                    assert(seq![endpoint_id@].to_set() =~= set![endpoint_id@]) by {
                        assert(seq![endpoint_id@].contains(endpoint_id@)) by {
                            assert(seq![endpoint_id@][0] == endpoint_id@);
                        }
                    }
                } else {
                    assert(string_views(member.endpoint_ids@) =~= Seq::<Seq<char>>::empty());
                }
            }
            assert(string_views(member.accepted_heads@) =~= Seq::<Seq<char>>::empty());
            assert(member.view() == mv);
            assert(member.wf()) by {
                assert(string_views(member.endpoint_ids@).len() <= 1);
            }
        }
        let position = sorted_position(&self.fingerprints, fingerprint.as_str());
        proof {
            lemma_sorted_insert(old_keys, position as int, fingerprint@);
            lemma_sorted_no_duplicates(old_keys);
        }
        let key_copy = fingerprint.clone();
        self.fingerprints.insert(position, fingerprint);
        self.members.insert(position, member);
        proof {
            let keys = string_views(self.fingerprints@);
            assert(keys =~= old_keys.insert(position as int, key_copy@));
            assert forall|i: int| 0 <= i < self.members@.len() implies (#[trigger] self.members@[i]).wf() by {
                if i < position {
                    assert(self.members@[i] == old_members[i]);
                } else if i > position {
                    assert(self.members@[i] == old_members[i - 1]);
                }
            }
            assert forall|f: Seq<char>| #[trigger] self.view().members.contains_key(f) <==> old_view.members.insert(key_copy@, mv).contains_key(f) by {
                if keys.contains(f) && f != key_copy@ {
                    let k = choose|k: int| 0 <= k < keys.len() && keys[k] == f;
                    if k < position {
                        assert(old_keys[k] == f);
                    } else {
                        assert(old_keys[k - 1] == f);
                    }
                }
                if old_keys.contains(f) {
                    lemma_index_of_insert(old_keys, position as int, key_copy@, f);
                }
                if f == key_copy@ {
                    lemma_index_of_insert(old_keys, position as int, key_copy@, f);
                }
            }
            assert forall|f: Seq<char>| #[trigger] self.view().members.contains_key(f) implies self.view().members[f] == old_view.members.insert(key_copy@, mv)[f] by {
                if f == key_copy@ {
                    lemma_index_of_insert(old_keys, position as int, key_copy@, f);
                } else {
                    lemma_index_of_insert(old_keys, position as int, key_copy@, f);
                    let k = old_keys.index_of(f);
                    if k < position {
                        assert(self.members@[k] == old_members[k]);
                    } else {
                        assert(self.members@[k + 1] == old_members[k]);
                    }
                }
            }
            assert(self.view().members =~= old_view.members.insert(key_copy@, mv));
        }
        if active {
            let peer_key = peer_id.as_str().to_owned();
            let ghost pk_view = peer_key@;
            self.peer_keys.push(peer_key);
            self.peer_values.push(key_copy);
            proof {
                let pkeys = string_views(self.peer_keys@);
                assert(pkeys =~= old_peer_keys.insert(old_peer_keys.len() as int, pk_view));
                assert forall|p: Seq<char>| #[trigger] self.view().peers.contains_key(p) <==> old_view.peers.insert(pk_view, key_copy@).contains_key(p) by {
                    if pkeys.contains(p) && p != pk_view {
                        let k = choose|k: int| 0 <= k < pkeys.len() && pkeys[k] == p;
                        assert(old_peer_keys[k] == p);
                    }
                    if old_peer_keys.contains(p) || p == pk_view {
                        lemma_index_of_insert(old_peer_keys, old_peer_keys.len() as int, pk_view, p);
                    }
                }
                assert forall|p: Seq<char>| #[trigger] self.view().peers.contains_key(p) implies self.view().peers[p] == old_view.peers.insert(pk_view, key_copy@)[p] by {
                    lemma_index_of_insert(old_peer_keys, old_peer_keys.len() as int, pk_view, p);
                    if p != pk_view {
                        let k = old_peer_keys.index_of(p);
                        assert(self.peer_values@[k] == old_peer_values[k]);
                    }
                }
                assert(self.view().peers =~= old_view.peers.insert(pk_view, key_copy@));
                lemma_index_of_insert(old_peer_keys, old_peer_keys.len() as int, pk_view, pk_view);
            }
        } else {
            proof {
                assert(self.view().peers =~= old_view.peers);
            }
        }
        proof {
            assert(self.view().events =~= old_view.events);
        }
        Ok(())
    }

    proof fn lemma_update_member(old_self: Self, new_self: Self, k: int, m: Member)
        requires
            old_self.wf(),
            0 <= k < old_self.members@.len(),
            new_self.fingerprints@ == old_self.fingerprints@,
            new_self.members@ == old_self.members@.update(k, m),
            new_self.peer_keys@ == old_self.peer_keys@,
            new_self.peer_values@ == old_self.peer_values@,
            new_self.events@ == old_self.events@,
            m.wf(),
        ensures
            new_self.wf(),
            new_self.view() == (RegistryView {
                members: old_self.view().members.insert(old_self.fingerprints@[k]@, m.view()),
                ..old_self.view()
            }),
    {
        let keys = string_views(old_self.fingerprints@);
        lemma_sorted_no_duplicates(keys);
        assert(keys[k] == old_self.fingerprints@[k]@);
        keys.index_of_first_ensures(keys[k]);
        assert forall|i: int| 0 <= i < new_self.members@.len() implies (#[trigger] new_self.members@[i]).wf() by {
            if i != k {
                assert(new_self.members@[i] == old_self.members@[i]);
            }
        }
        assert forall|f: Seq<char>| #[trigger] new_self.view().members.contains_key(f) implies new_self.view().members[f] == old_self.view().members.insert(keys[k], m.view())[f] by {
            if f != keys[k] {
                keys.index_of_first_ensures(f);
            }
        }
        assert(new_self.view().members =~= old_self.view().members.insert(keys[k], m.view())) by {
            assert(keys.contains(keys[k]));
        }
        assert(new_self.view().peers =~= old_self.view().peers);
        assert(new_self.view().events =~= old_self.view().events);
    }

    fn remove_peer(&mut self, peer_id: &str)
        requires
            old(self).wf(),
        ensures
            final(self).wf(),
            final(self).view() == (RegistryView { peers: old(self).view().peers.remove(peer_id@), ..old(self).view() }),
    {
        let ghost old_view = self.view();
        let ghost old_peer_keys = string_views(self.peer_keys@);
        let ghost old_peer_values = self.peer_values@;
        match self.find_peer(peer_id) {
            None => {
                proof {
                    assert(self.view().peers =~= old_view.peers.remove(peer_id@));
                }
            },
            Some(j) => {
                self.peer_keys.remove(j);
                self.peer_values.remove(j);
                proof {
                    let pkeys = string_views(self.peer_keys@);
                    assert(pkeys =~= old_peer_keys.remove(j as int));
                    assert(old_peer_keys[j as int] == peer_id@);
                    assert forall|p: Seq<char>| #[trigger] self.view().peers.contains_key(p) <==> old_view.peers.remove(peer_id@).contains_key(p) by {
                        if pkeys.contains(p) {
                            let k = choose|k: int| 0 <= k < pkeys.len() && pkeys[k] == p;
                            let ok = if k < j { k } else { k + 1 };
                            assert(old_peer_keys[ok] == p);
                            assert(p != peer_id@) by {
                                if p == peer_id@ {
                                    assert(old_peer_keys[ok] == old_peer_keys[j as int]);
                                }
                            }
                        }
                        if old_peer_keys.contains(p) && p != peer_id@ {
                            lemma_index_of_remove(old_peer_keys, j as int, p);
                        }
                    }
                    assert forall|p: Seq<char>| #[trigger] self.view().peers.contains_key(p) implies self.view().peers[p] == old_view.peers.remove(peer_id@)[p] by {
                        lemma_index_of_remove(old_peer_keys, j as int, p);
                        let k = old_peer_keys.index_of(p);
                        if k < j {
                            assert(self.peer_values@[k] == old_peer_values[k]);
                        } else {
                            assert(self.peer_values@[k - 1] == old_peer_values[k]);
                        }
                    }
                    assert(self.view().peers =~= old_view.peers.remove(peer_id@));
                    assert(self.view().members =~= old_view.members);
                    assert(self.view().events =~= old_view.events);
                    lemma_remove_no_duplicates(old_peer_keys, j as int);
                }
            },
        }
    }

    /// Whether the member with key fingerprint `fingerprint` is active.
    fn member_active(&self, fingerprint: &str) -> (result: bool)
        requires
            self.wf(),
        ensures
            result == is_active(self.view(), fingerprint@),
    {
        match self.find_member(fingerprint) {
            Some(k) => match self.members[k].status {
                MemberStatus::Active => true,
                _ => false,
            },
            None => false,
        }
    }

    fn bind_endpoint(&mut self, public_key: &[u8; 32], endpoint_id: &String, issuer: &String) -> (result: Result<(), MembershipError>)
        requires
            old(self).wf(),
        ensures
            final(self).wf(),
            ({
                let f = fingerprint_spec(public_key@);
                let s = old(self).view();
                if issuer@ != f {
                    result == Err::<(), MembershipError>(MembershipError::UnauthorizedEvent) && final(self).view() == s
                } else if !is_active(s, f) {
                    result == Err::<(), MembershipError>(MembershipError::UnknownMember) && final(self).view() == s
                } else {
                    result is Ok && final(self).view() == (RegistryView {
                        members: s.members.insert(
                            f,
                            MemberView { endpoints: s.members[f].endpoints.insert(endpoint_id@), ..s.members[f] },
                        ),
                        ..s
                    })
                }
            }),
    {
        let fingerprint = public_key_fingerprint(public_key);
        if *issuer != fingerprint {
            return Err(MembershipError::UnauthorizedEvent);
        }
        let found = self.find_member(fingerprint.as_str());
        let k = match found {
            Some(k) => k,
            None => {
                return Err(MembershipError::UnknownMember);
            },
        };
        match self.members[k].status {
            MemberStatus::Active => {},
            _ => {
                return Err(MembershipError::UnknownMember);
            },
        }
        let ghost old_self = *self;
        let mut member = self.members.remove(k);
        proof {
            assert(old_self.members@[k as int] == member);
            assert(member.wf());
        }
        insert_sorted(&mut member.endpoint_ids, endpoint_id.clone());
        self.members.insert(k, member);
        proof {
            assert(self.members@ =~= old_self.members@.update(k as int, member));
            Self::lemma_update_member(old_self, *self, k as int, member);
            assert(member.view().endpoints == old_self.members@[k as int].view().endpoints.insert(endpoint_id@));
            assert(member.view() == (MemberView { endpoints: old_self.view().members[fingerprint@].endpoints.insert(endpoint_id@), ..old_self.view().members[fingerprint@] }));
        }
        Ok(())
    }

    fn remove_member(
        &mut self,
        peer_id: &PeerId,
        public_key: &[u8; 32],
        accepted_actor_sequence: u64,
        accepted_heads: &Vec<String>,
        issuer: &String,
    ) -> (result: Result<(), MembershipError>)
        requires
            old(self).wf(),
        ensures
            final(self).wf(),
            ({
                let f = fingerprint_spec(public_key@);
                let s = old(self).view();
                if !is_active(s, issuer@) {
                    result == Err::<(), MembershipError>(MembershipError::UnauthorizedEvent) && final(self).view() == s
                } else if !(s.members.contains_key(f) && s.members[f].peer_id == peer_id.view_chars()) {
                    result == Err::<(), MembershipError>(MembershipError::UnknownMember) && final(self).view() == s
                } else {
                    result is Ok && final(self).view() == (RegistryView {
                        members: s.members.insert(
                            f,
                            MemberView {
                                status: MemberStatus::Removed,
                                accepted_actor_sequence: Some(accepted_actor_sequence),
                                accepted_heads: string_views(accepted_heads@),
                                ..s.members[f]
                            },
                        ),
                        peers: s.peers.remove(peer_id.view_chars()),
                        events: s.events,
                    })
                }
            }),
    {
        if !self.member_active(issuer.as_str()) {
            return Err(MembershipError::UnauthorizedEvent);
        }
        let fingerprint = public_key_fingerprint(public_key);
        let found = self.find_member(fingerprint.as_str());
        let k = match found {
            Some(k) => k,
            None => {
                return Err(MembershipError::UnknownMember);
            },
        };
        let same_peer = {
            let stored = chars_of(self.members[k].peer_id.as_str());
            let wanted = chars_of(peer_id.as_str());
            crate::text::chars_eq(stored.as_slice(), wanted.as_slice())
        };
        if !same_peer {
            return Err(MembershipError::UnknownMember);
        }
        let ghost old_self = *self;
        let mut member = self.members.remove(k);
        proof {
            assert(old_self.members@[k as int] == member);
        }
        member.status = MemberStatus::Removed;
        member.accepted_actor_sequence = Some(accepted_actor_sequence);
        member.accepted_heads = clone_strings(accepted_heads);
        self.members.insert(k, member);
        proof {
            assert(self.members@ =~= old_self.members@.update(k as int, member));
            Self::lemma_update_member(old_self, *self, k as int, member);
        }
        self.remove_peer(peer_id.as_str());
        Ok(())
    }

    fn apply_payload(&mut self, event: &SignedMembershipEvent) -> (result: Result<(), MembershipError>)
        requires
            old(self).wf(),
        ensures
            final(self).wf(),
            payload_step(old(self).view(), *event) matches Ok(t) ==> result is Ok && final(self).view() == t,
            payload_step(old(self).view(), *event) matches Err(e) ==> result == Err::<(), MembershipError>(e) && final(self).view() == old(self).view(),
    {
        match &event.payload {
            MembershipEvent::Genesis { peer_id, public_key, endpoint_id } => {
                let fingerprint = public_key_fingerprint(public_key);
                proof {
                    let keys = string_views(self.fingerprints@);
                    if self.fingerprints@.len() != 0 {
                        assert(self.view().members.dom().contains(keys[0]));
                    } else {
                        assert(self.view().members.dom() =~= Set::<Seq<char>>::empty());
                    }
                }
                if self.fingerprints.len() != 0 || !bytes_eq(public_key, &event.issuer_public_key)
                    || fingerprint != event.issuer {
                    return Err(MembershipError::UnauthorizedEvent);
                }
                self.insert_member(peer_id, public_key, endpoint_id.as_str(), MemberStatus::Active)
            },
            MembershipEvent::JoinApproved { peer_id, public_key, endpoint_id } => {
                if !self.member_active(event.issuer.as_str()) {
                    return Err(MembershipError::UnauthorizedEvent);
                }
                self.insert_member(peer_id, public_key, endpoint_id.as_str(), MemberStatus::Active)
            },
            MembershipEvent::JoinRejected { peer_id, public_key } => {
                if !self.member_active(event.issuer.as_str()) {
                    return Err(MembershipError::UnauthorizedEvent);
                }
                proof {
                    reveal_strlit("");
                    assert(""@ =~= Seq::<char>::empty());
                }
                self.insert_member(peer_id, public_key, "", MemberStatus::Rejected)
            },
            MembershipEvent::EndpointBound { public_key, endpoint_id } => {
                self.bind_endpoint(public_key, endpoint_id, &event.issuer)
            },
            MembershipEvent::PeerRemoved {
                peer_id,
                public_key,
                accepted_actor_sequence,
                accepted_heads,
                reason: _,
            } => {
                self.remove_member(peer_id, public_key, *accepted_actor_sequence, accepted_heads, &event.issuer)
            },
        }
    }

    /// Apply a signed membership event. `canonical` is the canonical encoding
    /// of the event's unsigned part. Returns whether the event was new.
    pub fn apply(&mut self, event: &SignedMembershipEvent, canonical: &[u8]) -> (result: Result<bool, MembershipError>)
        requires
            old(self).wf(),
        ensures
            final(self).wf(),
            (final(self).view(), result) == apply_step(old(self).view(), *event, event_check(*event, canonical@)),
    {
        event.verify(canonical)?;
        if let Some(i) = find_string(&self.events, event.event_id.as_str()) {
            proof {
                assert(string_views(self.events@)[i as int] == event.event_id@);
                assert(string_views(self.events@).contains(event.event_id@));
            }
            return Ok(false);
        }
        self.apply_payload(event)?;
        let ghost before = self.view();
        let ghost old_events = string_views(self.events@);
        self.events.push(event.event_id.clone());
        proof {
            assert(string_views(self.events@) =~= old_events.push(event.event_id@));
            old_events.lemma_push_to_set_commute(event.event_id@);
            assert(self.view().members =~= before.members);
            assert(self.view().peers =~= before.peers);
        }
        Ok(true)
    }

    /// Whether `public_key` belongs to an active member.
    pub fn is_active_key(&self, public_key: &[u8; 32]) -> (result: bool)
        requires
            self.wf(),
        ensures
            result == is_active(self.view(), fingerprint_spec(public_key@)),
    {
        let fingerprint = public_key_fingerprint(public_key);
        match self.find_member(fingerprint.as_str()) {
            Some(k) => match self.members[k].status {
                MemberStatus::Active => true,
                _ => false,
            },
            None => false,
        }
    }
}


/// A device's signing identity: its peer identifier and its Ed25519 secret
/// key.
pub struct MembershipIdentity {
    peer_id: PeerId,
    secret: [u8; 32],
}

impl MembershipIdentity {
    /// The identity's peer identifier.
    pub closed spec fn peer(self) -> PeerId {
        self.peer_id
    }

    /// The identity's secret key.
    pub closed spec fn secret_key(self) -> Seq<u8> {
        self.secret@
    }

    /// A fresh identity with a random secret key.
    pub fn generate(peer_id: PeerId) -> (result: MembershipIdentity)
        ensures
            result.peer() == peer_id,
            result.secret_key().len() == 32,
    {
        MembershipIdentity { peer_id, secret: random_secret() }
    }

    /// The identity with the given secret key.
    pub fn from_secret_bytes(peer_id: PeerId, bytes: &[u8; 32]) -> (result: MembershipIdentity)
        ensures
            result.peer() == peer_id,
            result.secret_key() == bytes@,
    {
        MembershipIdentity { peer_id, secret: *bytes }
    }

    pub fn peer_id(&self) -> (result: &PeerId)
        ensures
            *result == self.peer(),
    {
        &self.peer_id
    }

    pub fn secret_bytes(&self) -> (result: [u8; 32])
        ensures
            result@ == self.secret_key(),
    {
        self.secret
    }

    /// The identity's public key, which decodes as a valid key.
    pub fn public_key(&self) -> (result: [u8; 32])
        ensures
            result@ == ed25519_public(self.secret_key()),
            ed25519_key_valid(result@),
    {
        ed25519_public_key(&self.secret)
    }

    /// The fingerprint of the identity's public key.
    pub fn fingerprint(&self) -> (result: String)
        ensures
            result@ == fingerprint_spec(ed25519_public(self.secret_key())),
    {
        let key = self.public_key();
        public_key_fingerprint(&key)
    }

    /// The actor the identity writes records as: its fingerprint.
    pub fn actor_id(&self) -> (result: ActorId)
        ensures
            result.0@ == fingerprint_spec(ed25519_public(self.secret_key())),
    {
        ActorId(self.fingerprint())
    }

    /// Sign `bytes`: a 64-byte signature that verifies under the identity's
    /// public key.
    pub fn sign(&self, bytes: &[u8]) -> (result: Vec<u8>)
        ensures
            result@ == ed25519_signature(self.secret_key(), bytes@),
            signature_check_spec(ed25519_public(self.secret_key()), bytes@, result@) == SignatureCheck::Valid,
    {
        let key = ed25519_public_key(&self.secret);
        let signature = ed25519_sign(&self.secret, bytes);
        assert(ed25519_key_valid(key@) && key@ == ed25519_public(self.secret_key()));
        signature
    }
}

} // verus!
