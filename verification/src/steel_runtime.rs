//! Workspace configuration loaded through the sandboxed Steel runtime: which
//! files may hold configuration, and what loading them can report.

use vstd::prelude::*;

use crate::behavior::{decimal, decimal_spec, ActionPlugin, BehaviorError, Capability, Predicate};
use crate::behavior_rules::{
    grant_actions, granted, ActionDescriptor, ActionEffect, CapabilityGrant, WorkspaceBehavior,
};
use crate::domain::{first_slash, lemma_first_slash_bounds, lemma_first_slash_unique};
use crate::paths::{extension, extension_spec};
use crate::text::{
    chars_of, eq_str, find_string, first_position, is_prefix, lemma_first_position,
    lemma_index_of_insert, lemma_sorted_insert, lemma_sorted_no_duplicates, push_str,
    sorted_position, starts_with_str, strictly_sorted, string_views,
};

verus! {

pub const MAX_CONFIG_BYTES: usize = 1048576;

/// Why a workspace configuration could not be loaded.
#[derive(Clone, Debug, PartialEq, Eq)]
pub enum SteelConfigError {
    TooLarge,
    InvalidPath(String),
    Evaluation(String),
    InvalidResult,
    NativeConfig { offset: usize, message: String },
    PluginManifest { path: String, message: String },
    Behavior(BehaviorError),
}

/// The narrow host adapter through which Steel configuration is evaluated.
#[derive(Clone, Copy, Debug, PartialEq, Eq)]
pub struct SteelWorkspace;

/// Whether a `/`-separated segment may stand in a configuration path: not
/// empty, `.` or `..`.
pub open spec fn segment_ok(segment: Seq<char>) -> bool {
    segment.len() > 0 && segment != seq!['.'] && segment != seq!['.', '.']
}

/// Whether every `/`-separated segment of `s` may stand in a configuration path.
pub open spec fn segments_ok(s: Seq<char>) -> bool
    decreases s.len(),
{
    let k = first_slash(s);
    if k < 0 || k >= s.len() {
        segment_ok(s)
    } else {
        segment_ok(s.take(k)) && segments_ok(s.skip(k + 1))
    }
}

/// Whether `path` is a Steel source under `directory`.
pub open spec fn scm_under(path: Seq<char>, directory: Seq<char>) -> bool {
    is_prefix(directory, path) && extension_spec(path) == Some("scm"@) && segments_ok(path)
}

/// Whether `path` may hold workspace configuration: the root `xo.scm`, a
/// module under `modules/` or a plugin under `plugins/`.
pub open spec fn valid_config_path_spec(path: Seq<char>) -> bool {
    path == "xo.scm"@ || scm_under(path, "modules/"@) || scm_under(path, "plugins/"@)
}

fn segment_is_ok(chars: &Vec<char>, start: usize, end: usize) -> (result: bool)
    requires
        start <= end <= chars@.len(),
    ensures
        result == segment_ok(chars@.subrange(start as int, end as int)),
{
    let ghost seg = chars@.subrange(start as int, end as int);
    if start == end {
        return false;
    }
    if end - start == 1 && chars[start] == '.' {
        assert(seg =~= seq!['.']);
        return false;
    }
    if end - start == 2 && chars[start] == '.' && chars[start + 1] == '.' {
        assert(seg =~= seq!['.', '.']);
        return false;
    }
    proof {
        let dot = seq!['.'];
        let dots = seq!['.', '.'];
        assert(dot.len() == 1 && dot[0] == '.');
        assert(dots.len() == 2 && dots[0] == '.' && dots[1] == '.');
        if seg == dot {
            assert(seg[0] == chars@[start as int]);
        }
        if seg == dots {
            assert(seg[0] == chars@[start as int]);
            assert(seg[1] == chars@[start + 1]);
        }
    }
    true
}

/// Whether every segment of `chars` is allowed.
fn all_segments_ok(chars: &Vec<char>) -> (result: bool)
    ensures
        result == segments_ok(chars@),
{
    let ghost s = chars@;
    let mut start: usize = 0;
    let mut i: usize = 0;
    proof {
        assert(s.skip(0) =~= s);
    }
    while i < chars.len()
        invariant
            s == chars@,
            start <= i <= s.len(),
            forall|j: int| start <= j < i ==> s[j] != '/',
            segments_ok(s) ==> segments_ok(s.skip(start as int)),
            segments_ok(s.skip(start as int)) ==> segments_ok(s),
        decreases s.len() - i,
    {
        if chars[i] == '/' {
            let ok = segment_is_ok(chars, start, i);
            let ghost rest = s.skip(start as int);
            proof {
                assert forall|j: int| 0 <= j < i - start implies rest[j] != '/' by {
                    assert(rest[j] == s[start + j]);
                }
                lemma_first_slash_unique(rest, i - start);
                assert(rest.take(i - start) =~= s.subrange(start as int, i as int));
                assert(rest.skip(i - start + 1) =~= s.skip(i + 1));
            }
            if !ok {
                return false;
            }
            start = i + 1;
        }
        i = i + 1;
    }
    let ok = segment_is_ok(chars, start, i);
    proof {
        let rest = s.skip(start as int);
        assert forall|j: int| 0 <= j < rest.len() implies rest[j] != '/' by {
            assert(rest[j] == s[start + j]);
        }
        lemma_first_slash_unique(rest, rest.len() as int);
        assert(rest =~= s.subrange(start as int, i as int));
    }
    ok
}

fn scm_path_under(path: &str, chars: &Vec<char>, directory: &str) -> (result: bool)
    requires
        chars@ == path@,
    ensures
        result == scm_under(path@, directory@),
{
    if !starts_with_str(chars.as_slice(), directory) {
        return false;
    }
    let is_scm = match extension(path) {
        Some(ext) => {
            let e = chars_of(ext.as_str());
            eq_str(e.as_slice(), "scm")
        },
        None => false,
    };
    is_scm && all_segments_ok(chars)
}

/// Whether `path` names a module source.
pub fn valid_module_path(path: &str) -> (result: bool)
    ensures
        result == scm_under(path@, "modules/"@),
{
    let chars = chars_of(path);
    scm_path_under(path, &chars, "modules/")
}

/// Whether `path` names a plugin source.
pub fn valid_plugin_path(path: &str) -> (result: bool)
    ensures
        result == scm_under(path@, "plugins/"@),
{
    let chars = chars_of(path);
    scm_path_under(path, &chars, "plugins/")
}

/// Whether `path` may hold workspace configuration.
pub fn valid_config_path(path: &str) -> (result: bool)
    ensures
        result == valid_config_path_spec(path@),
{
    let chars = chars_of(path);
    eq_str(chars.as_slice(), "xo.scm") || valid_module_path(path) || valid_plugin_path(path)
}

/// An action that a Steel plugin's manifest declares, with the defaults of
/// absent fields already filled in.
#[derive(Debug, PartialEq, Eq)]
pub struct PluginAction {
    pub id: String,
    pub description: String,
    pub prompt: String,
    pub entrypoint: String,
    pub predicate: Predicate,
    pub effects: Vec<ActionEffect>,
    /// The capabilities the action asks for, in ascending order.
    pub capabilities: Vec<Capability>,
}

/// What a Steel plugin's `xo-plugin-manifest` returns, once decoded.
#[derive(Debug, PartialEq, Eq)]
pub struct PluginManifest {
    pub schema: u16,
    pub actions: Vec<PluginAction>,
}

/// The entry point of a plugin action whose manifest names none.
pub fn plugin_entrypoint() -> (result: String)
    ensures
        result@ == "xo-plugin-run"@,
{
    "xo-plugin-run".to_owned()
}

/// The capabilities granted to each action, by action name.
pub open spec fn grant_map(grants: Seq<CapabilityGrant>) -> Map<Seq<char>, Seq<Capability>> {
    Map::new(
        |k: Seq<char>| grant_actions(grants).contains(k),
        |k: Seq<char>| grants[grant_actions(grants).index_of(k)].capabilities@,
    )
}

/// With action names in strictly ascending order, the first grant for an
/// action is the one the map holds.
pub proof fn lemma_granted_by_map(grants: Seq<CapabilityGrant>, id: Seq<char>, c: Capability)
    requires
        strictly_sorted(grant_actions(grants)),
    ensures
        granted(grants, id, c) == (grant_map(grants).contains_key(id) && grant_map(grants)[id].contains(c)),
{
    let names = grant_actions(grants);
    lemma_sorted_no_duplicates(names);
    if names.contains(id) {
        names.index_of_first_ensures(id);
        let k = names.index_of(id);
        lemma_first_position(names, id, k);
    } else {
        lemma_first_position(names, id, names.len() as int);
    }
}

/// A copy of a list of capabilities.
fn copy_capabilities(capabilities: &Vec<Capability>) -> (result: Vec<Capability>)
    ensures
        result@ == capabilities@,
{
    let mut out: Vec<Capability> = Vec::new();
    let mut i: usize = 0;
    while i < capabilities.len()
        invariant
            i <= capabilities@.len(),
            out@ == capabilities@.take(i as int),
        decreases capabilities@.len() - i,
    {
        out.push(capabilities[i]);
        i = i + 1;
        assert(out@ =~= capabilities@.take(i as int));
    }
    assert(capabilities@.take(i as int) =~= capabilities@);
    out
}

/// Grant `capabilities` to `action`, replacing what it was granted, keeping
/// grants in ascending order of action.
fn set_grant(grants: &mut Vec<CapabilityGrant>, action: String, capabilities: Vec<Capability>)
    requires
        strictly_sorted(grant_actions(old(grants)@)),
    ensures
        strictly_sorted(grant_actions(final(grants)@)),
        grant_map(final(grants)@) == grant_map(old(grants)@).insert(action@, capabilities@),
{
    let ghost old_grants = grants@;
    let ghost old_names = grant_actions(grants@);
    let ghost k = action@;
    let ghost v = capabilities@;
    proof {
        lemma_sorted_no_duplicates(old_names);
    }
    let mut names: Vec<String> = Vec::new();
    let mut i: usize = 0;
    while i < grants.len()
        invariant
            i <= grants@.len(),
            grants@ == old_grants,
            old_names == grant_actions(old_grants),
            names@.len() == i,
            string_views(names@) == old_names.take(i as int),
        decreases grants@.len() - i,
    {
        let ghost before = names@;
        names.push(grants[i].action.clone());
        proof {
            assert(names@ == before.push(names@[i as int]));
            assert(string_views(names@) =~= old_names.take(i + 1));
        }
        i = i + 1;
    }
    proof {
        assert(old_names.take(i as int) =~= old_names);
    }
    match find_string(&names, action.as_str()) {
        Some(g) => {
            let grant = CapabilityGrant { action, capabilities };
            let ghost gv = grant;
            grants.set(g, grant);
            proof {
                assert(grants@[g as int] == gv);
                assert(old_names[g as int] == k);
                assert(grant_actions(grants@) =~= old_names);
                assert(old_names.contains(k));
                assert forall|q: Seq<char>| #[trigger] grant_map(grants@).contains_key(q) implies grant_map(grants@)[q]
                    == grant_map(old_grants).insert(k, v)[q] by {
                    old_names.index_of_first_ensures(q);
                }
                assert(grant_map(grants@) =~= grant_map(old_grants).insert(k, v));
            }
        },
        None => {
            let position = sorted_position(&names, action.as_str());
            let grant = CapabilityGrant { action, capabilities };
            let ghost gv = grant;
            grants.insert(position, grant);
            proof {
                assert(grants@[position as int] == gv);
                assert(grant_actions(grants@) =~= old_names.insert(position as int, k));
                lemma_sorted_insert(old_names, position as int, k);
                assert forall|q: Seq<char>| #[trigger] grant_map(grants@).contains_key(q) implies grant_map(grants@)[q]
                    == grant_map(old_grants).insert(k, v)[q] by {
                    lemma_index_of_insert(old_names, position as int, k, q);
                    if q != k {
                        let j = old_names.index_of(q);
                        let nj = if j < position { j } else { j + 1 };
                        assert(grants@[nj] == old_grants[j]);
                    }
                }
                assert forall|q: Seq<char>| #[trigger] grant_map(old_grants).insert(k, v).contains_key(q) implies grant_map(grants@).contains_key(q) by {
                    lemma_index_of_insert(old_names, position as int, k, q);
                }
                assert(grant_map(grants@) =~= grant_map(old_grants).insert(k, v));
            }
        },
    }
}

/// The grants after those of `actions`, in order, over `grants`: a later
/// declaration of an action replaces an earlier one.
pub open spec fn manifest_grants(grants: Map<Seq<char>, Seq<Capability>>, actions: Seq<PluginAction>) -> Map<Seq<char>, Seq<Capability>>
    decreases actions.len(),
{
    if actions.len() == 0 {
        grants
    } else {
        manifest_grants(grants, actions.drop_last()).insert(actions.last().id@, actions.last().capabilities@)
    }
}

/// Whether `d` is the action that the manifest action `a` of the plugin at
/// `path` becomes: the same identifier, description, predicate and effects,
/// run by the plugin exactly when it has no effects.
pub open spec fn plugin_descriptor(d: ActionDescriptor, a: PluginAction, path: Seq<char>) -> bool {
    &&& d.id == a.id
    &&& d.description == a.description
    &&& d.predicate == a.predicate
    &&& d.effects == a.effects
    &&& if a.effects@.len() == 0 {
        d.plugin matches Some(ActionPlugin::Steel { path: p, entrypoint: e, prompt: r, capabilities: cs }) && p@
            == path && e == a.entrypoint && r == a.prompt && cs@ == a.capabilities@
    } else {
        d.plugin is None
    }
}

/// Add the actions a plugin's manifest declares, each with the capabilities
/// it asks for granted; a manifest of another schema than 1 is refused and
/// changes nothing.
pub fn merge_manifest(behavior: &mut WorkspaceBehavior, path: &str, manifest: PluginManifest) -> (result: Result<(), SteelConfigError>)
    requires
        strictly_sorted(grant_actions(old(behavior).capability_grants@)),
    ensures
        manifest.schema != 1 ==> {
            &&& result matches Err(SteelConfigError::PluginManifest { path: p, message: m })
            &&& p@ == path@
            &&& m@ == "unsupported schema "@ + decimal_spec(manifest.schema as nat)
            &&& *final(behavior) == *old(behavior)
        },
        manifest.schema == 1 ==> {
            &&& result is Ok
            &&& final(behavior).schema == old(behavior).schema
            &&& final(behavior).default_view == old(behavior).default_view
            &&& final(behavior).views == old(behavior).views
            &&& final(behavior).templates == old(behavior).templates
            &&& final(behavior).query_limit == old(behavior).query_limit
            &&& final(behavior).actions@.len() == old(behavior).actions@.len() + manifest.actions@.len()
            &&& final(behavior).actions@.take(old(behavior).actions@.len() as int) == old(behavior).actions@
            &&& forall|i: int| 0 <= i < manifest.actions@.len() ==> plugin_descriptor(
                #[trigger] final(behavior).actions@[old(behavior).actions@.len() + i],
                manifest.actions@[i],
                path@,
            )
            &&& strictly_sorted(grant_actions(final(behavior).capability_grants@))
            &&& grant_map(final(behavior).capability_grants@) == manifest_grants(
                grant_map(old(behavior).capability_grants@),
                manifest.actions@,
            )
        },
{
    if manifest.schema != 1 {
        let mut message = "unsupported schema ".to_owned();
        let number = decimal(manifest.schema as u64);
        push_str(&mut message, number.as_str());
        proof {
            reveal_strlit("unsupported schema ");
        }
        return Err(SteelConfigError::PluginManifest { path: path.to_owned(), message });
    }
    let ghost all = manifest.actions@;
    let ghost start = old(behavior).actions@;
    let ghost start_grants = grant_map(old(behavior).capability_grants@);
    let mut actions = manifest.actions;
    let n = actions.len();
    let mut i: usize = 0;
    proof {
        assert(all.skip(0) =~= all);
        assert(behavior.actions@.take(start.len() as int) =~= start);
        assert(all.take(0) =~= Seq::<PluginAction>::empty());
    }
    while i < n
        invariant
            n == all.len(),
            i <= n,
            actions@ == all.skip(i as int),
            behavior.schema == old(behavior).schema,
            behavior.default_view == old(behavior).default_view,
            behavior.views == old(behavior).views,
            behavior.templates == old(behavior).templates,
            behavior.query_limit == old(behavior).query_limit,
            start == old(behavior).actions@,
            behavior.actions@.len() == start.len() + i,
            behavior.actions@.take(start.len() as int) == start,
            forall|j: int| 0 <= j < i ==> plugin_descriptor(#[trigger] behavior.actions@[start.len() + j], all[j], path@),
            strictly_sorted(grant_actions(behavior.capability_grants@)),
            grant_map(behavior.capability_grants@) == manifest_grants(start_grants, all.take(i as int)),
        decreases n - i,
    {
        let action = actions.remove(0);
        proof {
            assert(action == all[i as int]);
            assert(actions@ =~= all.skip(i + 1));
        }
        let plugin = if action.effects.len() == 0 {
            Some(ActionPlugin::Steel {
                path: path.to_owned(),
                entrypoint: action.entrypoint,
                prompt: action.prompt,
                capabilities: copy_capabilities(&action.capabilities),
            })
        } else {
            None
        };
        let ghost before = behavior.actions@;
        set_grant(&mut behavior.capability_grants, action.id.clone(), action.capabilities);
        let descriptor = ActionDescriptor {
            id: action.id,
            description: action.description,
            predicate: action.predicate,
            effects: action.effects,
            plugin,
        };
        let ghost dv = descriptor;
        behavior.actions.push(descriptor);
        proof {
            assert(behavior.actions@ == before.push(dv));
            assert(behavior.actions@[start.len() + i] == dv);
            assert forall|j: int| 0 <= j < i implies plugin_descriptor(#[trigger] behavior.actions@[start.len() + j], all[j], path@) by {
                assert(behavior.actions@[start.len() + j] == before[start.len() + j]);
            }
            assert(behavior.actions@.take(start.len() as int) =~= start);
            assert(all.take(i + 1).drop_last() =~= all.take(i as int));
            assert(all.take(i + 1).last() == all[i as int]);
        }
        i = i + 1;
    }
    proof {
        assert(all.take(n as int) =~= all);
    }
    Ok(())
}

} // verus!
