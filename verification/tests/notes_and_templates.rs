use xo::behavior::{
    default_views, render_template, render_variables, ActionPlugin, Capability, Predicate,
    TemplateInputs,
};
use xo::markdown::slugify;
use xo::sync_state::{
    connectivity_name, operation_from_columns, parse_connectivity, sqlite_ms, status_from_store,
    Connectivity, OperationStatus,
};
use xo::text::replace_all;
use xo::text_map::TextMap;
use xo::wikilink::parse;

#[test]
fn slug_is_normalized_and_bounded() {
    assert_eq!(slugify("  Héllo, Rust World!  "), "héllo-rust-world");
}

#[test]
fn slugs_collapse_separators_and_stop_at_fifty_characters() {
    assert_eq!(slugify("---"), "");
    assert_eq!(slugify("a -- b"), "a-b");
    assert_eq!(slugify("Trailing!!!"), "trailing");
    let long = "x".repeat(80);
    assert_eq!(slugify(&long), "x".repeat(50));
    let words = "ab ".repeat(30);
    let slug = slugify(&words);
    assert!(slug.chars().count() <= 50);
    assert!(!slug.ends_with('-'));
}

#[test]
fn reports_legacy_byte_ranges_and_lines() {
    let links = parse("first [[abc]]\n[[second]]");
    assert_eq!(links[0].id, "abc");
    assert_eq!((links[0].line, links[0].start_column), (0, 6));
    assert_eq!((links[1].line, links[1].start_column), (1, 0));
}

#[test]
fn wikilinks_report_byte_offsets_past_multibyte_characters() {
    let links = parse("é [[x]] [[unclosed ] and [[y]]");
    assert_eq!(links.len(), 2);
    assert_eq!(links[0].id, "x");
    assert_eq!((links[0].start, links[0].end), (3, 8));
    assert_eq!((links[0].start_column, links[0].end_column), (3, 8));
    assert_eq!(links[1].id, "y");
    assert_eq!(links[1].start, 26);
}

#[test]
fn wikilinks_may_span_lines_and_nest_brackets() {
    let links = parse("a\n[[[b\nc]]");
    assert_eq!(links.len(), 1);
    assert_eq!(links[0].id, "[b\nc");
    assert_eq!((links[0].line, links[0].start_column), (1, 0));
    assert_eq!(links[0].end_column, 3);
    assert!(parse("no links [here]").is_empty());
    assert_eq!(parse("[[]]")[0].id, "");
}

#[test]
fn replace_all_matches_std_replace() {
    for (text, pattern, replacement) in [
        ("aaaa", "aa", "b"),
        ("{{x}} and {{x}}", "{{x}}", "1"),
        ("nothing here", "zz", "y"),
        ("ééé", "é", "e"),
    ] {
        assert_eq!(
            replace_all(text, pattern, replacement),
            text.replace(pattern, replacement)
        );
    }
}

#[test]
fn templates_substitute_builtin_and_custom_values() {
    let mut values = TextMap::new();
    values.insert("title".to_string(), "Hello".to_string());
    values.insert("Date".to_string(), "overridden".to_string());
    let input = TemplateInputs {
        date: "2026-07-22".into(),
        date_time: "2026-07-22T12:00:00+00:00".into(),
        year: "2026".into(),
        month: "07".into(),
        day: "22".into(),
        id: "nmeaaaa".into(),
        slug: "hello".into(),
        values,
    };
    assert_eq!(
        render_template("{{Year}}/{{Month}}/{{ID}}-{{Slug}} {{title}} {{Date}} {{missing}}", &input),
        "2026/07/nmeaaaa-hello Hello 2026-07-22 {{missing}}"
    );
}

#[test]
fn variables_are_substituted_in_key_order() {
    let mut values = TextMap::new();
    values.insert("b".to_string(), "{{a}}".to_string());
    values.insert("a".to_string(), "x".to_string());
    // `a` is substituted first, so the `{{a}}` that `b` brings stays.
    assert_eq!(render_variables("{{b}}{{a}}", &values), "{{a}}x");
}

#[test]
fn text_map_replaces_values_and_keeps_keys_sorted() {
    let mut map = TextMap::new();
    map.insert("b".into(), "2".into());
    map.insert("a".into(), "1".into());
    map.insert("b".into(), "3".into());
    assert_eq!(map.len(), 2);
    assert_eq!(map.key_at(0), "a");
    assert_eq!(map.value_at(1), "3");
    assert_eq!(map.get("b").map(String::as_str), Some("3"));
    assert_eq!(map.get("c"), None);
}

#[test]
fn built_in_views_list_notes_then_everything() {
    let views = default_views();
    assert_eq!(views.len(), 2);
    assert_eq!(views[0].id, "notes");
    assert_eq!(views[0].key.as_deref(), Some("n"));
    assert_eq!(
        views[0].predicate,
        Predicate::FieldEquals { field: "type".into(), value: "note".into() }
    );
    assert_eq!(views[1].id, "all");
    assert_eq!(views[1].subtitle_field.as_deref(), Some("type"));
    assert_eq!(views[1].predicate, Predicate::Always);
    assert_eq!(Predicate::default(), Predicate::Always);
}

#[test]
fn plugin_capabilities_are_listed_in_order() {
    assert_eq!(
        ActionPlugin::CaptureUrl.required_capabilities(),
        vec![Capability::CreateNote, Capability::Network]
    );
    let steel = ActionPlugin::Steel {
        path: "plugins/x.scm".into(),
        entrypoint: "run".into(),
        prompt: "Run".into(),
        capabilities: vec![Capability::MutateNote, Capability::ReadSecret],
    };
    assert_eq!(
        steel.required_capabilities(),
        vec![Capability::MutateNote, Capability::ReadSecret]
    );
}

#[test]
fn deterministic_template_inputs_come_from_the_instant() {
    let instant = time::OffsetDateTime::from_unix_timestamp(1_784_721_600).unwrap();
    let inputs =
        TemplateInputs::deterministic(xo::timestamp::instant_of(instant), "nmeaaaa".into(), "slug".into(), TextMap::new())
            .unwrap();
    assert_eq!(inputs.date, "2026-07-22");
    assert_eq!(inputs.date_time, "2026-07-22T12:00:00+00:00");
    assert_eq!(inputs.year, "2026");
    assert_eq!(inputs.month, "07");
    assert_eq!(inputs.day, "22");
    assert_eq!(inputs.id, "nmeaaaa");
}

#[test]
fn template_inputs_pad_months_and_days() {
    let inputs = TemplateInputs::from_parts(
        "d".into(),
        "t".into(),
        -44,
        3,
        9,
        "i".into(),
        "s".into(),
        TextMap::new(),
    );
    assert_eq!((inputs.year.as_str(), inputs.month.as_str(), inputs.day.as_str()), ("-44", "03", "09"));
}

#[test]
fn connectivity_names_round_trip() {
    for value in [
        Connectivity::Offline,
        Connectivity::Connecting,
        Connectivity::Direct,
        Connectivity::Relay,
    ] {
        assert_eq!(parse_connectivity(connectivity_name(&value)), value);
    }
    assert_eq!(parse_connectivity("satellite"), Connectivity::Offline);
}

#[test]
fn stored_operations_and_status_are_decoded() {
    let operation = operation_from_columns(
        7,
        "publish-head".into(),
        "note002".into(),
        "failed",
        1,
        Some("offline".into()),
        -5,
        Some(20),
    );
    assert_eq!(operation.status, OperationStatus::Failed);
    assert_eq!(operation.created_ms, 0);
    assert_eq!(operation.attempted_ms, Some(20));
    assert_eq!(OperationStatus::parse("bogus"), OperationStatus::Pending);
    assert_eq!(OperationStatus::parse("in_flight"), OperationStatus::InFlight);
    assert_eq!(sqlite_ms(u64::MAX), i64::MAX);
    assert_eq!(sqlite_ms(10), 10);

    let status = status_from_store(Some("relay".into()), 0, vec![]);
    assert!(status.converged);
    assert_eq!(status.connectivity, Connectivity::Relay);
    let status = status_from_store(None, 2, vec!["abc".into()]);
    assert!(!status.converged);
    assert_eq!(status.pending_operations, 2);
    assert_eq!(status.connectivity, Connectivity::Offline);
    assert_eq!(status_from_store(None, -1, vec![]).pending_operations, usize::MAX);
}

#[test]
fn built_in_names_override_caller_values_and_unknown_placeholders_stay() {
    let instant = time::OffsetDateTime::from_unix_timestamp(1_767_323_045).unwrap();
    let mut values = TextMap::new();
    values.insert("Slug".to_owned(), "user".to_owned());
    values.insert("who".to_owned(), "me".to_owned());
    let input = TemplateInputs::deterministic(
        xo::timestamp::instant_of(instant),
        "abc1234".into(),
        "my-note".into(),
        values,
    )
    .unwrap();
    assert_eq!(input.date_time, "2026-01-02T03:04:05+00:00");
    assert_eq!(
        render_template("{{Year}}/{{Slug}} {{who}} {{Missing}}", &input),
        "2026/my-note me {{Missing}}"
    );
}

#[test]
fn years_before_zero_cannot_be_written_in_rfc3339() {
    let instant = xo::timestamp::Instant { unix_seconds: -63_745_056_000, nanosecond: 0, offset_seconds: 0 };
    let inputs = TemplateInputs::deterministic(instant, "i".into(), "s".into(), TextMap::new());
    assert!(inputs.is_err());
}
