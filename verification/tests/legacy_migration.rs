use xo::behavior::Predicate;
use xo::behavior_rules::ActionEffect;
use xo::domain::FrontmatterValue;
use xo::behavior::Capability;
use xo::fennel::{debug_text, read, Form};
use xo::legacy_config::{migrate_fennel, MigrationError};

#[test]
fn diagnoses_unknown_code() {
    assert!(matches!(
        migrate_fennel(
            "{:default-view :all :views {} :actions {:x {:description \"x\" :when (fn [n] true) :run (fn [n] (os.execute \"id\"))}}}"
        ),
        Err(MigrationError::Unsupported { .. })
    ));
}

#[test]
fn unknown_code_is_reported_with_its_location_and_form() {
    assert_eq!(
        migrate_fennel(
            "{:default-view :all :views {} :actions {:x {:description \"x\" :when (fn [n] true) :run (fn [n] (os.execute \"id\"))}}}"
        ),
        Err(MigrationError::Unsupported {
            location: "actions.x.run".into(),
            construct: "List([Symbol(\"os.execute\"), String(\"id\")])".into(),
        })
    );
}

const EXAMPLE: &str = r#"; legacy configuration
{:default-view :books
 :views {:books {:name "Books" :key "b" :show-tags true :sort-field "title" :sort-order "desc"
                 :when (fn [note] (has-tag note "book"))
                 :subviews [{:name "To Read!" :when (fn [note] (not (has-tag note "done")))}]}}
 :actions {:finish {:description "Finish"
                    :when (fn [note] (and (has-tag note "reading") (= note.type "book")))
                    :run (fn [note] (assoc note :tags (add-tag (remove-tag note.tags "reading") "finished")))}
           :rate {:description "Rate" :when (fn [note] true) :run (fn [note] (assoc note :rating "5"))}}}
"#;

#[test]
fn migrates_views_actions_and_grants() {
    let behavior = migrate_fennel(EXAMPLE).unwrap();
    assert_eq!(behavior.default_view, "books");
    assert_eq!(behavior.views.len(), 1);
    let view = &behavior.views[0];
    assert_eq!(view.id, "books");
    assert_eq!(view.name, "Books");
    assert_eq!(view.key.as_deref(), Some("b"));
    assert!(view.show_tags);
    assert_eq!(view.title_field, "title");
    assert_eq!(view.sort_field.as_deref(), Some("title"));
    assert!(view.descending);
    assert_eq!(view.predicate, Predicate::HasTag { tag: "book".into() });
    assert_eq!(view.subviews.len(), 1);
    assert_eq!(view.subviews[0].id, "to-read");
    assert_eq!(view.subviews[0].name, "To Read!");
    assert_eq!(
        view.subviews[0].predicate,
        Predicate::Not { predicate: Box::new(Predicate::HasTag { tag: "done".into() }) }
    );
    assert_eq!(behavior.actions.len(), 2);
    assert_eq!(
        behavior.actions[0].predicate,
        Predicate::All {
            predicates: vec![
                Predicate::HasTag { tag: "reading".into() },
                Predicate::FieldEquals { field: "type".into(), value: "book".into() },
            ]
        }
    );
    assert_eq!(
        behavior.actions[0].effects,
        vec![
            ActionEffect::RemoveTag { tag: "reading".into() },
            ActionEffect::AddTag { tag: "finished".into() },
        ]
    );
    assert_eq!(behavior.actions[1].predicate, Predicate::Always);
    assert_eq!(
        behavior.actions[1].effects,
        vec![ActionEffect::SetField { field: "rating".into(), value: FrontmatterValue::String("5".into()) }]
    );
    assert!(behavior.actions.iter().all(|action| action.plugin.is_none()));
    let granted: Vec<&str> = behavior.capability_grants.iter().map(|grant| grant.action.as_str()).collect();
    assert_eq!(granted, vec!["finish", "rate"]);
    assert!(behavior
        .capability_grants
        .iter()
        .all(|grant| grant.capabilities == vec![Capability::MutateNote]));
    assert_eq!(behavior.validate(), Ok(()));
}

#[test]
fn syntax_errors_report_byte_offsets() {
    let syntax = |source: &str| match migrate_fennel(source) {
        Err(MigrationError::Syntax { offset, message }) => (offset, message),
        other => panic!("expected a syntax error, got {other:?}"),
    };
    assert_eq!(syntax("{:a"), (3, "unterminated collection".to_owned()));
    assert_eq!(syntax("\"abc"), (4, "unterminated string".to_owned()));
    assert_eq!(syntax("(a b) c"), (6, "unexpected trailing input".to_owned()));
    assert_eq!(syntax("{:a}"), (4, "map has an odd number of forms".to_owned()));
    assert_eq!(syntax("\"\\q\""), (3, "unsupported string escape".to_owned()));
    assert_eq!(syntax(")"), (0, "unexpected character".to_owned()));
    assert_eq!(syntax("  ; only a comment"), (18, "expected form".to_owned()));
    assert_eq!(syntax("é)"), (2, "unexpected trailing input".to_owned()));
}

#[test]
fn validation_and_shape_errors_name_the_root() {
    assert_eq!(
        migrate_fennel("{:default-view :missing :views {} :actions {}}"),
        Err(MigrationError::Unsupported { location: "root".into(), construct: "unknown view: missing".into() })
    );
    assert_eq!(
        migrate_fennel("{:views {} :actions {}}"),
        Err(MigrationError::Unsupported { location: "root".into(), construct: "missing required :default-view".into() })
    );
    assert_eq!(
        migrate_fennel("{:default-view \"all\" :views {} :actions {}}"),
        Err(MigrationError::Unsupported { location: "root.default-view".into(), construct: "String(\"all\")".into() })
    );
    let duplicate = "{:default-view :all :views {:a {:name \"A\" :when (fn [n] true)} :a {:name \"B\" :when (fn [n] true)}} :actions {}}";
    assert_eq!(
        migrate_fennel(duplicate),
        Err(MigrationError::Unsupported { location: "root".into(), construct: "duplicate view identifier: a".into() })
    );
    assert_eq!(
        migrate_fennel("{:default-view :all :views {:a {:name \"A\" :when (fn [n] (= n.type \"x\"))}} :actions {}}"),
        Err(MigrationError::Unsupported { location: "views.a.when".into(), construct: "Symbol(\"n.type\")".into() })
    );
}

#[test]
fn forms_read_back_as_their_debug_text() {
    let form = read("{:k [\"a\\n\" sym] :t (x)}").unwrap();
    assert_eq!(
        debug_text(&form),
        "Map([(Symbol(\":k\"), Vector([String(\"a\\n\"), Symbol(\"sym\")])), (Symbol(\":t\"), List([Symbol(\"x\")]))])"
    );
    assert!(matches!(read("\"tab\\t\"").unwrap(), Form::String(text) if text == "tab\t"));
}
