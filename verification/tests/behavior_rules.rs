use xo::behavior::{ActionPlugin, BehaviorError, Capability, Predicate, Query, SubviewDescriptor, TemplateDescriptor, ViewDescriptor};
use xo::behavior_rules::{
    render_preview, sort_year, tags_from_items, tags_from_text, with_tag, without_tag,
    ActionDescriptor, ActionEffect, CapabilityGrant, NoteFacts, WorkspaceBehavior,
};
use xo::text_map::TextMap;

fn note(title: &str, tags: &[&str]) -> NoteFacts {
    let mut fields = TextMap::new();
    fields.insert("title".to_owned(), title.to_owned());
    fields.insert("tags".to_owned(), tags.join(", "));
    NoteFacts {
        id: title.to_lowercase(),
        path: format!("{title}.md"),
        body: "body".to_owned(),
        fields,
        tags: tags_from_items(&tags.iter().map(|tag| (*tag).to_owned()).collect()),
    }
}

fn view(id: &str, predicate: Predicate) -> ViewDescriptor {
    ViewDescriptor {
        id: id.into(),
        name: id.into(),
        key: None,
        show_tags: true,
        title_field: "title".into(),
        subtitle_field: None,
        sort_field: None,
        descending: false,
        preview: None,
        predicate,
        subviews: vec![],
    }
}

#[test]
fn default_sort_uses_created_and_extracts_year_headers() {
    let mut older = note("Z title", &[]);
    older.fields.insert("created".into(), "2024-03-01T10:00:00Z".into());
    let mut newer = note("A title", &[]);
    newer.fields.insert("created".into(), "2025-04-01T10:00:00Z".into());
    let behavior = WorkspaceBehavior::default();
    let notes = vec![newer, older];
    let found = behavior.query(&notes, &Query::default()).unwrap();
    assert_eq!(notes[found[0]].id.as_str(), "z title");
    assert_eq!(sort_year(&notes[found[0]], "created").as_deref(), Some("2024"));
    assert_eq!(sort_year(&notes[found[1]], "title"), None);
}

#[test]
fn queries_are_bounded_and_actions_require_grants() {
    let mut behavior = WorkspaceBehavior {
        views: vec![view("books", Predicate::HasTag { tag: "book".into() })],
        actions: vec![ActionDescriptor {
            id: "finish".into(),
            description: String::new(),
            predicate: Predicate::HasTag { tag: "reading".into() },
            effects: vec![
                ActionEffect::RemoveTag { tag: "reading".into() },
                ActionEffect::AddTag { tag: "finished".into() },
            ],
            plugin: None,
        }],
        ..WorkspaceBehavior::default()
    };
    let notes = vec![note("B", &["book"]), note("A", &["book", "reading"]), note("N", &["note"])];
    let found = behavior
        .query(&notes, &Query { view: "books".into(), limit: Some(1), ..Query::default() })
        .unwrap();
    assert_eq!(found.len(), 1);
    assert_eq!(notes[found[0]].id.as_str(), "a");
    let mut target = note("A", &["book", "reading"]);
    assert!(matches!(
        behavior.action(Some(&target), "finish"),
        Err(BehaviorError::CapabilityDenied { .. })
    ));
    behavior.capability_grants.push(CapabilityGrant {
        action: "finish".into(),
        capabilities: vec![Capability::MutateNote],
    });
    let action = behavior.action(Some(&target), "finish").unwrap();
    for effect in &action.effects {
        let tags = std::mem::take(&mut target.tags);
        target.tags = match effect {
            ActionEffect::AddTag { tag } => with_tag(tags, tag.clone()),
            ActionEffect::RemoveTag { tag } => without_tag(tags, tag),
            _ => tags,
        };
    }
    assert!(Predicate::HasTag { tag: "finished".into() }.matches(&target));
    assert!(!Predicate::HasTag { tag: "reading".into() }.matches(&target));
}

#[test]
fn plugin_actions_require_every_host_capability() {
    let mut behavior = WorkspaceBehavior {
        actions: vec![ActionDescriptor {
            id: "capture-url".into(),
            description: "Capture URL".into(),
            predicate: Predicate::Always,
            effects: vec![],
            plugin: Some(ActionPlugin::CaptureUrl),
        }],
        ..WorkspaceBehavior::default()
    };
    assert_eq!(
        behavior.action(None, "capture-url"),
        Err(BehaviorError::CapabilityDenied {
            action: "capture-url".into(),
            capability: Capability::CreateNote,
        })
    );
    behavior.capability_grants.push(CapabilityGrant {
        action: "capture-url".into(),
        capabilities: vec![Capability::CreateNote],
    });
    assert_eq!(
        behavior.action(None, "capture-url"),
        Err(BehaviorError::CapabilityDenied {
            action: "capture-url".into(),
            capability: Capability::Network,
        })
    );
    behavior.capability_grants[0].capabilities.push(Capability::Network);
    assert_eq!(
        behavior.action(None, "capture-url").unwrap().plugin,
        Some(ActionPlugin::CaptureUrl)
    );
}

#[test]
fn validation_reports_the_first_inconsistency() {
    let mut behavior = WorkspaceBehavior::default();
    assert_eq!(behavior.validate(), Ok(()));
    behavior.query_limit = 0;
    assert_eq!(behavior.validate(), Err(BehaviorError::InvalidQueryLimit));
    behavior.query_limit = 501;
    assert_eq!(behavior.validate(), Err(BehaviorError::InvalidQueryLimit));
    behavior.query_limit = 500;
    behavior.views = vec![view("a", Predicate::Always), view("b", Predicate::Always), view("a", Predicate::Always)];
    assert_eq!(
        behavior.validate(),
        Err(BehaviorError::Duplicate { kind: "view", id: "a".into() })
    );
    behavior.views.pop();
    behavior.templates = vec![TemplateDescriptor { id: String::new(), path: "t.md".into(), content: String::new() }];
    assert_eq!(
        behavior.validate(),
        Err(BehaviorError::Duplicate { kind: "template", id: String::new() })
    );
    behavior.templates.clear();
    behavior.views[1].subviews = vec![
        SubviewDescriptor { id: "x".into(), name: "X".into(), predicate: Predicate::Always },
        SubviewDescriptor { id: "x".into(), name: "X".into(), predicate: Predicate::Always },
    ];
    assert_eq!(
        behavior.validate(),
        Err(BehaviorError::Duplicate { kind: "subview", id: "x".into() })
    );
    behavior.views[1].subviews.pop();
    behavior.default_view = "missing".into();
    assert_eq!(behavior.validate(), Err(BehaviorError::UnknownView("missing".into())));
    behavior.default_view = "b".into();
    assert_eq!(behavior.validate(), Ok(()));
    behavior.schema = 2;
    assert_eq!(behavior.validate(), Err(BehaviorError::UnsupportedSchema(2)));
}

#[test]
fn queries_filter_by_subview_title_and_tags_and_sort_descending() {
    let mut books = view("books", Predicate::HasTag { tag: "book".into() });
    books.descending = true;
    books.sort_field = Some("title".into());
    books.subviews = vec![SubviewDescriptor {
        id: "reading".into(),
        name: "Reading".into(),
        predicate: Predicate::Not { predicate: Box::new(Predicate::HasTag { tag: "done".into() }) },
    }];
    let behavior = WorkspaceBehavior { views: vec![books], ..WorkspaceBehavior::default() };
    let notes = vec![
        note("alpha Book", &["book"]),
        note("Beta book", &["book", "done"]),
        note("Gamma BOOK", &["book", "fav"]),
        note("Delta", &["note"]),
    ];
    let all = behavior.query(&notes, &Query { view: "books".into(), ..Query::default() }).unwrap();
    assert_eq!(all, vec![2, 1, 0]);
    let reading = behavior
        .query(&notes, &Query { view: "books".into(), subview: Some("reading".into()), ..Query::default() })
        .unwrap();
    assert_eq!(reading, vec![2, 0]);
    let titled = behavior
        .query(&notes, &Query { view: "books".into(), title: Some("bOOk".into()), tags: vec!["fav".into()], ..Query::default() })
        .unwrap();
    assert_eq!(titled, vec![2]);
    assert_eq!(
        behavior.query(&notes, &Query { view: "films".into(), ..Query::default() }),
        Err(BehaviorError::UnknownView("films".into()))
    );
    assert_eq!(
        behavior.query(&notes, &Query { subview: Some("reading".into()), ..Query::default() }),
        Err(BehaviorError::UnknownSubview("reading".into()))
    );
    let everything = behavior.query(&notes, &Query { view: "all".into(), limit: Some(9), ..Query::default() }).unwrap();
    assert_eq!(everything.len(), 4);
}

#[test]
fn predicates_combine_fields_and_tags() {
    let target = note("Report", &["work", "urgent"]);
    let field = Predicate::FieldEquals { field: "title".into(), value: "Report".into() };
    let id = Predicate::FieldEquals { field: "id".into(), value: "report".into() };
    let path = Predicate::FieldEquals { field: "path".into(), value: "Report.md".into() };
    let missing = Predicate::FieldEquals { field: "status".into(), value: String::new() };
    assert!(field.matches(&target) && id.matches(&target) && path.matches(&target) && missing.matches(&target));
    let all = Predicate::All { predicates: vec![field, Predicate::HasTag { tag: "urgent".into() }] };
    assert!(all.matches(&target));
    let any = Predicate::Any { predicates: vec![Predicate::HasTag { tag: "home".into() }, Predicate::Not { predicate: Box::new(all) }] };
    assert!(!any.matches(&target));
    assert!(!Predicate::Any { predicates: vec![] }.matches(&target));
    assert!(Predicate::All { predicates: vec![] }.matches(&target));
}

#[test]
fn tag_sets_come_from_lists_and_text() {
    assert_eq!(tags_from_text(" b, a ,, b,c "), vec!["a".to_owned(), "b".to_owned(), "c".to_owned()]);
    assert_eq!(tags_from_text(""), Vec::<String>::new());
    assert_eq!(tags_from_items(&vec!["z".into(), "a".into(), "z".into()]), vec!["a".to_owned(), "z".to_owned()]);
    let tags = with_tag(vec!["a".into(), "c".into()], "b".into());
    assert_eq!(tags, vec!["a".to_owned(), "b".to_owned(), "c".to_owned()]);
    assert_eq!(without_tag(tags, "a"), vec!["b".to_owned(), "c".to_owned()]);
}

#[test]
fn previews_render_note_fields() {
    let mut target = note("Report", &[]);
    target.fields.insert("ID".into(), "shadowed".into());
    assert_eq!(render_preview("{{title}}: {{Body}} ({{ID}})", &target), "Report: body (shadowed)");
    let plain = note("Plain", &[]);
    assert_eq!(render_preview("{{ID}}/{{missing}}", &plain), "plain/{{missing}}");
}
