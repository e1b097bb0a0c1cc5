use xo::behavior::{ActionPlugin, Capability, Predicate};
use xo::behavior_rules::{ActionEffect, CapabilityGrant, WorkspaceBehavior};
use xo::steel_runtime::{merge_manifest, plugin_entrypoint, PluginAction, PluginManifest, SteelConfigError};

fn action(id: &str, effects: Vec<ActionEffect>, capabilities: Vec<Capability>) -> PluginAction {
    PluginAction {
        id: id.to_owned(),
        description: format!("{id} action"),
        prompt: String::new(),
        entrypoint: plugin_entrypoint(),
        predicate: Predicate::Always,
        effects,
        capabilities,
    }
}

#[test]
fn manifests_of_other_schemas_are_refused() {
    let mut behavior = WorkspaceBehavior::default();
    let result = merge_manifest(
        &mut behavior,
        "plugins/hardcover.scm",
        PluginManifest { schema: 2, actions: vec![action("search", vec![], vec![])] },
    );
    assert_eq!(
        result,
        Err(SteelConfigError::PluginManifest {
            path: "plugins/hardcover.scm".to_owned(),
            message: "unsupported schema 2".to_owned(),
        })
    );
    assert!(behavior.actions.is_empty());
}

#[test]
fn manifest_actions_are_appended_and_granted() {
    let mut behavior = WorkspaceBehavior::default();
    merge_manifest(
        &mut behavior,
        "plugins/hardcover.scm",
        PluginManifest {
            schema: 1,
            actions: vec![
                action("hardcover-search", vec![], vec![Capability::Network, Capability::ReadSecret]),
                action("finish-book", vec![ActionEffect::AddTag { tag: "read".into() }], vec![Capability::MutateNote]),
            ],
        },
    )
    .unwrap();
    assert_eq!(behavior.actions.len(), 2);
    assert_eq!(behavior.actions[0].id, "hardcover-search");
    assert_eq!(
        behavior.actions[0].plugin,
        Some(ActionPlugin::Steel {
            path: "plugins/hardcover.scm".into(),
            entrypoint: "xo-plugin-run".into(),
            prompt: String::new(),
            capabilities: vec![Capability::Network, Capability::ReadSecret],
        })
    );
    assert_eq!(behavior.actions[1].plugin, None);
    assert_eq!(
        behavior.capability_grants,
        vec![
            CapabilityGrant { action: "finish-book".into(), capabilities: vec![Capability::MutateNote] },
            CapabilityGrant {
                action: "hardcover-search".into(),
                capabilities: vec![Capability::Network, Capability::ReadSecret],
            },
        ]
    );
}

#[test]
fn a_later_declaration_replaces_the_grant() {
    let mut behavior = WorkspaceBehavior::default();
    merge_manifest(
        &mut behavior,
        "plugins/a.scm",
        PluginManifest {
            schema: 1,
            actions: vec![
                action("x", vec![], vec![Capability::Network]),
                action("x", vec![], vec![Capability::CreateNote]),
            ],
        },
    )
    .unwrap();
    assert_eq!(behavior.actions.len(), 2);
    assert_eq!(
        behavior.capability_grants,
        vec![CapabilityGrant { action: "x".into(), capabilities: vec![Capability::CreateNote] }]
    );
}
