use xo::central_sync::{
    validate_sync_message, ClientId, ControlMessage, SyncProtocolError, MAX_SYNC_MESSAGE_BYTES,
};
use xo::domain::{
    validate_relative_path, AssetRecord, ConfigRevision, DomainError, Head, SchemaVersion, Tombstone,
};
use xo::id::{assemble, days_from_julian_day, encode_base32, is_valid};
use xo::text::Order;
use xo::timestamp::with_numeric_offset;
use xo::{ActorId, AssetId, Hlc, HlcClock, NoteId, RevisionId};

use time::format_description::well_known::Rfc3339;
use time::OffsetDateTime;

#[test]
fn clock_survives_clock_regression_and_remote_observation() {
    let mut clock = HlcClock::new(ActorId::new("a"));
    assert_eq!(clock.next(100).logical, 0);
    assert_eq!(clock.next(90).logical, 1);
    let observed = clock.observe(
        &Hlc {
            physical_ms: 200,
            logical: 4,
            actor_id: ActorId::new("b"),
        },
        150,
    );
    assert_eq!((observed.physical_ms, observed.logical), (200, 5));
}

#[test]
fn local_events_strictly_advance_the_clock() {
    let mut clock = HlcClock::new(ActorId::new("a"));
    let first = clock.next(10);
    let second = clock.next(10);
    let third = clock.next(5);
    assert_eq!(first.compare(&second), Order::Less);
    assert_eq!(second.compare(&third), Order::Less);
    assert_eq!((third.physical_ms, third.logical), (10, 2));
}

#[test]
fn observation_dominates_local_and_remote() {
    let mut clock = HlcClock::from_timestamp(Hlc {
        physical_ms: 300,
        logical: 7,
        actor_id: ActorId::new("a"),
    });
    let remote = Hlc {
        physical_ms: 300,
        logical: 9,
        actor_id: ActorId::new("b"),
    };
    let observed = clock.observe(&remote, 100);
    assert_eq!((observed.physical_ms, observed.logical), (300, 10));
    let later = clock.observe(&remote, 400);
    assert_eq!((later.physical_ms, later.logical), (400, 0));
    assert_eq!(later.actor_id, ActorId::new("a"));
}

#[test]
fn saturated_logical_counter_stays_put() {
    let mut clock = HlcClock::from_timestamp(Hlc {
        physical_ms: 50,
        logical: u32::MAX,
        actor_id: ActorId::new("a"),
    });
    let next = clock.next(10);
    assert_eq!((next.physical_ms, next.logical), (50, u32::MAX));
}

#[test]
fn timestamps_order_by_time_then_counter_then_actor() {
    let at = |p: u64, l: u32, a: &str| Hlc {
        physical_ms: p,
        logical: l,
        actor_id: ActorId::new(a),
    };
    assert_eq!(at(1, 9, "z").compare(&at(2, 0, "a")), Order::Less);
    assert_eq!(at(2, 1, "a").compare(&at(2, 0, "z")), Order::Greater);
    assert_eq!(at(2, 1, "a").compare(&at(2, 1, "b")), Order::Less);
    assert_eq!(at(2, 1, "ab").compare(&at(2, 1, "a")), Order::Greater);
    assert_eq!(at(2, 1, "x").compare(&at(2, 1, "x")), Order::Equal);
}

#[test]
fn rejects_ids_outside_the_current_format() {
    assert!(!is_valid("Abc123xyz"));
    assert!(!is_valid("not-valid"));
}

#[test]
fn accepts_seven_character_base32_ids() {
    assert!(is_valid("note002"));
    assert!(is_valid("0000abc"));
    assert!(!is_valid("note001"));
    assert!(!is_valid("abcdefgh"));
}

#[test]
fn base32_encoding_is_most_significant_first() {
    assert_eq!(encode_base32(0), "a");
    assert_eq!(encode_base32(31), "7");
    assert_eq!(encode_base32(32), "ba");
    assert_eq!(encode_base32(13_000), "mwi");
}

#[test]
fn identifier_epoch_is_1989_01_17() {
    assert_eq!(days_from_julian_day(2_447_544), 0);
    assert_eq!(days_from_julian_day(2_447_545), 1);
    assert_eq!(days_from_julian_day(2_000_000), 0);
    let date = OffsetDateTime::parse("2026-07-22T12:00:00Z", &Rfc3339).unwrap();
    assert_eq!(xo::id::days_since_epoch(date), 13_700);
}

#[test]
fn assembled_ids_are_padded_to_seven_characters() {
    assert_eq!(assemble(0, [0, 1, 2, 31]), "00aabc7");
    assert_eq!(assemble(13_700, [0, 0, 0, 0]), "nmeaaaa");
    assert!(is_valid(&assemble(13_700, [5, 6, 7, 8])));
    let generated = xo::id::generate(OffsetDateTime::parse("2026-07-22T12:00:00Z", &Rfc3339).unwrap());
    assert_eq!(generated.len(), 7);
    assert!(is_valid(&generated));
    assert!(generated.starts_with("nme"));
}

#[test]
fn utc_is_always_formatted_with_a_numeric_offset() {
    let instant = OffsetDateTime::parse("2026-01-02T03:04:05Z", &Rfc3339).unwrap();
    assert_eq!(
        xo::timestamp::format(xo::timestamp::instant_of(instant)).unwrap(),
        "2026-01-02T03:04:05+00:00"
    );
}

#[test]
fn non_utc_offset_is_retained() {
    let instant = OffsetDateTime::parse("2026-01-02T03:04:05+05:30", &Rfc3339).unwrap();
    assert_eq!(
        xo::timestamp::format(xo::timestamp::instant_of(instant)).unwrap(),
        "2026-01-02T03:04:05+05:30"
    );
}

#[test]
fn numeric_offset_rewrites_only_a_trailing_z() {
    assert_eq!(with_numeric_offset("12Z".to_owned()), "12+00:00");
    assert_eq!(with_numeric_offset("Z1".to_owned()), "Z1");
    assert_eq!(with_numeric_offset(String::new()), "");
}

#[test]
fn client_ids_and_control_frames_are_validated() {
    assert_eq!(ClientId::parse("clever-browser".to_owned()).unwrap().as_str(), "clever-browser");
    assert_eq!(
        ClientId::parse("contains spaces".to_owned()),
        Err(SyncProtocolError::InvalidClientId)
    );
    assert_eq!(ClientId::parse("x".repeat(65)), Err(SyncProtocolError::InvalidClientId));
    assert!(ControlMessage::client_hello("clever-browser".to_owned()).validate().is_ok());
    assert_eq!(
        ControlMessage::client_hello("contains spaces".to_owned()).validate(),
        Err(SyncProtocolError::InvalidClientId)
    );
    assert_eq!(
        ControlMessage::ClientHello {
            protocol_version: 2,
            client_id: "browser".into()
        }
        .validate(),
        Err(SyncProtocolError::UnsupportedVersion(2))
    );
    assert!(ControlMessage::server_hello(
        "workspace-1".to_owned(),
        vec!["clever-browser".to_owned(), "terminal".to_owned()]
    )
    .validate()
    .is_ok());
    assert_eq!(
        ControlMessage::server_hello("work space".to_owned(), vec![]).validate(),
        Err(SyncProtocolError::InvalidWorkspaceId)
    );
    assert_eq!(
        ControlMessage::Presence {
            clients: vec!["ok".into(), "not ok".into()]
        }
        .validate(),
        Err(SyncProtocolError::InvalidClientId)
    );
    assert_eq!(
        ControlMessage::Error {
            code: "bad code".into(),
            message: "m".into()
        }
        .validate(),
        Err(SyncProtocolError::InvalidErrorCode)
    );
    assert_eq!(
        ControlMessage::Error {
            code: "code".into(),
            message: String::new()
        }
        .validate(),
        Err(SyncProtocolError::InvalidErrorMessage)
    );
}

#[test]
fn sync_messages_are_bounded() {
    assert_eq!(validate_sync_message(&[]), Err(SyncProtocolError::EmptySyncMessage));
    assert_eq!(
        validate_sync_message(&vec![0; MAX_SYNC_MESSAGE_BYTES + 1]),
        Err(SyncProtocolError::SyncMessageTooLarge(MAX_SYNC_MESSAGE_BYTES + 1))
    );
    assert!(validate_sync_message(&[1]).is_ok());
}

fn hlc(actor: &str) -> Hlc {
    Hlc {
        physical_ms: 100,
        logical: 0,
        actor_id: ActorId::new(actor),
    }
}

#[test]
fn relative_paths_stay_inside_the_projection() {
    assert!(matches!(validate_relative_path("../escape.md"), Err(DomainError::InvalidPath(_))));
    assert!(matches!(validate_relative_path("/etc/passwd"), Err(DomainError::InvalidPath(_))));
    assert!(matches!(validate_relative_path(""), Err(DomainError::InvalidPath(_))));
    assert!(matches!(validate_relative_path(".xo/state"), Err(DomainError::InvalidPath(_))));
    assert!(matches!(validate_relative_path("a/../b"), Err(DomainError::InvalidPath(_))));
    assert!(validate_relative_path("notes/a..b.md").is_ok());
    assert!(validate_relative_path(".xorc/a.md").is_ok());
}

#[test]
fn record_validation_reports_the_first_problem() {
    let asset = AssetRecord {
        schema: SchemaVersion(1),
        id: AssetId::new("asset-1"),
        blob_hash: "abc".into(),
        mime: "image/png".into(),
        size: 3,
        materialized_path: "assets/images/cover.png".into(),
    };
    assert!(asset.validate().is_ok());
    let mut outside = asset.clone();
    outside.materialized_path = "images/cover.png".into();
    assert_eq!(
        outside.validate(),
        Err(DomainError::InvalidAssetPath("images/cover.png".into()))
    );
    let mut old = asset.clone();
    old.schema = SchemaVersion(2);
    assert_eq!(old.validate(), Err(DomainError::UnsupportedSchema(2)));
    let mut no_mime = asset;
    no_mime.mime = String::new();
    assert_eq!(no_mime.validate(), Err(DomainError::EmptyField { field: "mime" }));

    let config = ConfigRevision {
        schema: SchemaVersion(1),
        path: "xo.scm".into(),
        blob_hash: "hash".into(),
        size: 1,
        hlc: hlc("device-a"),
        author_id: ActorId::new("device-b"),
        predecessors: vec![],
    };
    assert_eq!(config.validate(), Err(DomainError::AuthorMismatch));

    let head = Head {
        note_id: NoteId::new("note001"),
        author_id: ActorId::new("a"),
        revision_id: RevisionId::new("r"),
    };
    assert_eq!(head.validate(), Err(DomainError::InvalidNoteId("note001".into())));
    let good_head = Head {
        note_id: NoteId::new("note002"),
        author_id: ActorId::new("a"),
        revision_id: RevisionId::new(""),
    };
    assert_eq!(
        good_head.validate(),
        Err(DomainError::EmptyField { field: "revision_id" })
    );

    let tombstone = Tombstone {
        schema: SchemaVersion(1),
        target_id: "note002".into(),
        author_id: ActorId::new("device-a"),
        revision_id: RevisionId::new("r"),
        hlc: hlc("device-a"),
    };
    assert!(tombstone.validate().is_ok());
}

#[test]
fn rfc3339_needs_a_four_digit_year_and_a_whole_minute_offset() {
    use_instant_checks();
}

fn use_instant_checks() {
    let early = xo::timestamp::Instant { unix_seconds: -62_167_219_201, nanosecond: 0, offset_seconds: 0 };
    assert!(xo::timestamp::format(early).is_err());
    let odd_offset = xo::timestamp::Instant { unix_seconds: 0, nanosecond: 0, offset_seconds: 30 };
    assert!(xo::timestamp::format(odd_offset).is_err());
    let fraction = xo::timestamp::Instant { unix_seconds: 0, nanosecond: 500_000_000, offset_seconds: -3600 };
    assert_eq!(xo::timestamp::format(fraction).unwrap(), "1969-12-31T23:00:00.5-01:00");
    assert_eq!(xo::timestamp::calendar_date(&fraction), (1969, 12, 31));
}
