//! Verified core logic of the xo offline-first knowledge workspace.

pub mod admin;
pub mod api_keys;
pub mod auth;
pub mod authenticated_change;
pub mod backup;
pub mod behavior;
pub mod behavior_rules;
pub mod central;
pub mod central_sync;
pub mod crypto;
pub mod domain;
pub mod encryption;
pub mod events;
pub mod fennel;
pub mod frontmatter;
pub mod hlc;
pub mod http_api;
pub mod id;
pub mod legacy_config;
pub mod llm;
pub mod lsp;
pub mod markdown;
pub mod membership;
pub mod operator;
pub mod paths;
pub mod resolution;
pub mod rotation;
pub mod peer_protocol;
pub mod projection;
pub mod pwa;
pub mod record_workspace;
pub mod records;
pub mod steel_blocks;
pub mod steel_runtime;
pub mod sync_state;
pub mod syncd_config;
pub mod text;
pub mod text_map;
pub mod timestamp;
pub mod watcher;
pub mod wikilink;
pub mod xo_config;
pub mod yaml;
pub mod workspace_projection;

pub use domain::{
    ActorId, AssetId, AssetRecord, ConfigRevision, Conflict, DomainError, Head, Note, NoteId,
    NoteRevision, RevisionId, SchemaVersion, Tombstone, WorkspaceId,
};
pub use hlc::{Hlc, HlcClock};
