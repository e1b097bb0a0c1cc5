//! The rules of a workspace behavior applied to notes: which notes a
//! predicate selects, whether a behavior description is consistent, and
//! whether an action may run on a note with the capabilities granted to it.
//!
//! A note is seen through `NoteFacts`: its identifier, path and body, the
//! display text of each frontmatter field, and its tags.

use vstd::prelude::*;

use crate::behavior::{
    capability_rank, capability_set, required_capabilities_spec, ActionPlugin, BehaviorError, Query,
    Capability, Predicate, SubviewDescriptor, TemplateDescriptor, ViewDescriptor, BEHAVIOR_SCHEMA,
    DEFAULT_QUERY_LIMIT,
};
use crate::markdown::{lowercase, lowercase_spec};
use crate::text::{
    chars_of, compare_str, push_str, contains_spec, contains_str, eq_str, find_string, first_position,
    lemma_first_position, lemma_lex_order_antisym, lemma_lex_order_trans, lex_order, order_value,
    Order, string_range, lemma_sorted_no_duplicates, insert_sorted, split_char, split_spec, string_views,
    strictly_sorted, trim, trim_spec,
};
use crate::behavior::{decimal, decimal_spec, render_spec, render_variables};
use crate::text_map::TextMap;
use crate::domain::{
    entries_view, lemma_entries_view_index, lemma_values_view_index, values_view, FrontmatterValue,
    FrontmatterView, Note,
};
use crate::frontmatter::{
    entries_map, entry_keys, find_entry, keys_ordered, lemma_first_entry_map, set_entry, text_items,
};

verus! {

/// What the rules read of a note.
pub struct NoteFacts {
    pub id: String,
    pub path: String,
    pub body: String,
    /// The display text of each frontmatter field, by field name.
    pub fields: TextMap,
    /// The note's tags, in ascending order without repetition.
    pub tags: Vec<String>,
}

/// The display text of field `name` of a note: its identifier for `id`, its
/// path for `path`, and otherwise the frontmatter field, or nothing.
pub open spec fn field_spec(note: NoteFacts, name: Seq<char>) -> Seq<char> {
    if name == "id"@ {
        note.id@
    } else if name == "path"@ {
        note.path@
    } else if note.fields.view().contains_key(name) {
        note.fields.view()[name]
    } else {
        Seq::empty()
    }
}

/// Whether a note carries `tag`.
pub open spec fn has_tag(note: NoteFacts, tag: Seq<char>) -> bool {
    string_views(note.tags@).contains(tag)
}

/// Whether `p` selects the note.
pub open spec fn matches_spec(p: Predicate, note: NoteFacts) -> bool
    decreases p,
{
    match p {
        Predicate::Always => true,
        Predicate::FieldEquals { field, value } => field_spec(note, field@) == value@,
        Predicate::HasTag { tag } => has_tag(note, tag@),
        Predicate::Not { predicate } => !matches_spec(*predicate, note),
        Predicate::All { predicates } => all_match(predicates@, note),
        Predicate::Any { predicates } => any_match(predicates@, note),
    }
}

/// Whether every predicate of `ps` selects the note.
pub open spec fn all_match(ps: Seq<Predicate>, note: NoteFacts) -> bool
    decreases ps,
{
    if ps.len() == 0 {
        true
    } else {
        matches_spec(ps[0], note) && all_match(ps.drop_first(), note)
    }
}

/// Whether some predicate of `ps` selects the note.
pub open spec fn any_match(ps: Seq<Predicate>, note: NoteFacts) -> bool
    decreases ps,
{
    if ps.len() == 0 {
        false
    } else {
        matches_spec(ps[0], note) || any_match(ps.drop_first(), note)
    }
}

/// A list of predicates all selects a note exactly when each of them
/// selects it, and any selects it exactly when at least one of them does.
pub proof fn lemma_all_any_match(ps: Seq<Predicate>, note: NoteFacts)
    ensures
        all_match(ps, note) <==> forall|i: int| 0 <= i < ps.len() ==> matches_spec(#[trigger] ps[i], note),
        any_match(ps, note) <==> exists|i: int| 0 <= i < ps.len() && matches_spec(#[trigger] ps[i], note),
    decreases ps.len(),
{
    if ps.len() > 0 {
        let rest = ps.drop_first();
        lemma_all_any_match(rest, note);
        assert forall|i: int| 0 < i < ps.len() implies ps[i] == rest[i - 1] by {}
        if any_match(ps, note) {
            if matches_spec(ps[0], note) {
                assert(matches_spec(ps[0], note));
            } else {
                let j = choose|j: int| 0 <= j < rest.len() && matches_spec(#[trigger] rest[j], note);
                assert(ps[j + 1] == rest[j]);
            }
        }
        if exists|i: int| 0 <= i < ps.len() && matches_spec(#[trigger] ps[i], note) {
            let i = choose|i: int| 0 <= i < ps.len() && matches_spec(#[trigger] ps[i], note);
            if i > 0 {
                assert(matches_spec(rest[i - 1], note));
            }
        }
        if forall|i: int| 0 <= i < ps.len() ==> matches_spec(#[trigger] ps[i], note) {
            assert forall|i: int| 0 <= i < rest.len() implies matches_spec(#[trigger] rest[i], note) by {
                assert(matches_spec(ps[i + 1], note));
            }
            assert(matches_spec(ps[0], note));
        }
        if all_match(ps, note) {
            assert forall|i: int| 0 <= i < ps.len() implies matches_spec(#[trigger] ps[i], note) by {
                if i > 0 {
                    assert(matches_spec(rest[i - 1], note));
                }
            }
        }
    }
}

/// `Any` selects a note exactly when at least one of its predicates does,
/// `All` exactly when every one of them does, and `Not` exactly when its
/// predicate does not.
pub proof fn lemma_combinators(predicates: Vec<Predicate>, inner: Predicate, note: NoteFacts)
    ensures
        matches_spec(Predicate::Any { predicates }, note) <==> exists|i: int|
            0 <= i < predicates@.len() && matches_spec(#[trigger] predicates@[i], note),
        matches_spec(Predicate::All { predicates }, note) <==> forall|i: int|
            0 <= i < predicates@.len() ==> matches_spec(#[trigger] predicates@[i], note),
        matches_spec(Predicate::Not { predicate: Box::new(inner) }, note) <==> !matches_spec(inner, note),
{
    lemma_all_any_match(predicates@, note);
}

/// The display text of a field of a note.
pub fn field(note: &NoteFacts, name: &str) -> (result: String)
    requires
        note.fields.wf(),
    ensures
        result@ == field_spec(*note, name@),
{
    let chars = chars_of(name);
    if eq_str(chars.as_slice(), "id") {
        return note.id.clone();
    }
    if eq_str(chars.as_slice(), "path") {
        return note.path.clone();
    }
    match note.fields.get(name) {
        Some(value) => value.clone(),
        None => String::new(),
    }
}

impl Predicate {
    /// Whether the predicate selects the note.
    pub fn matches(&self, note: &NoteFacts) -> (result: bool)
        requires
            note.fields.wf(),
        ensures
            result == matches_spec(*self, *note),
        decreases self,
    {
        match self {
            Predicate::Always => true,
            Predicate::FieldEquals { field: name, value } => {
                let text = field(note, name.as_str());
                let chars = chars_of(text.as_str());
                eq_str(chars.as_slice(), value.as_str())
            },
            Predicate::HasTag { tag } => match find_string(&note.tags, tag.as_str()) {
                Some(i) => {
                    assert(string_views(note.tags@)[i as int] == tag@);
                    true
                },
                None => false,
            },
            Predicate::Not { predicate } => !predicate.matches(note),
            Predicate::All { predicates } => {
                let mut i: usize = 0;
                assert(predicates@.skip(0) =~= predicates@);
                while i < predicates.len()
                    invariant
                        i <= predicates@.len(),
                        note.fields.wf(),
                        *self == (Predicate::All { predicates: *predicates }),
                        all_match(predicates@, *note) == all_match(predicates@.skip(i as int), *note),
                    decreases predicates@.len() - i,
                {
                    proof {
                        assert(predicates@.skip(i as int).drop_first() =~= predicates@.skip(i + 1));
                        assert(predicates@.skip(i as int)[0] == predicates@[i as int]);
                    }
                    proof {
                        assert(decreases_to!(*self => self->All_predicates));
                        assert(decreases_to!(*predicates => predicates@));
                        assert(decreases_to!(predicates@ => predicates@[i as int]));
                        assert(decreases_to!(*self => predicates@[i as int]));
                    }
                    if !predicates[i].matches(note) {
                        return false;
                    }
                    i = i + 1;
                }
                true
            },
            Predicate::Any { predicates } => {
                let mut i: usize = 0;
                assert(predicates@.skip(0) =~= predicates@);
                while i < predicates.len()
                    invariant
                        i <= predicates@.len(),
                        note.fields.wf(),
                        *self == (Predicate::Any { predicates: *predicates }),
                        any_match(predicates@, *note) == any_match(predicates@.skip(i as int), *note),
                    decreases predicates@.len() - i,
                {
                    proof {
                        assert(predicates@.skip(i as int).drop_first() =~= predicates@.skip(i + 1));
                        assert(predicates@.skip(i as int)[0] == predicates@[i as int]);
                    }
                    proof {
                        assert(decreases_to!(*self => self->Any_predicates));
                        assert(decreases_to!(*predicates => predicates@));
                        assert(decreases_to!(predicates@ => predicates@[i as int]));
                        assert(decreases_to!(*self => predicates@[i as int]));
                    }
                    if predicates[i].matches(note) {
                        return true;
                    }
                    i = i + 1;
                }
                false
            },
        }
    }
}

/// What an action does to a note.
#[derive(Debug, PartialEq, Eq)]
pub enum ActionEffect {
    AddTag { tag: String },
    RemoveTag { tag: String },
    SetField { field: String, value: FrontmatterValue },
    SetFieldNow { field: String },
    AppendBody { text: String },
}

/// The abstract value of an effect.
pub enum EffectView {
    AddTag(Seq<char>),
    RemoveTag(Seq<char>),
    SetField(Seq<char>, FrontmatterView),
    SetFieldNow(Seq<char>),
    AppendBody(Seq<char>),
}

impl ActionEffect {
    pub open spec fn view(self) -> EffectView {
        match self {
            ActionEffect::AddTag { tag } => EffectView::AddTag(tag@),
            ActionEffect::RemoveTag { tag } => EffectView::RemoveTag(tag@),
            ActionEffect::SetField { field, value } => EffectView::SetField(field@, value.view()),
            ActionEffect::SetFieldNow { field } => EffectView::SetFieldNow(field@),
            ActionEffect::AppendBody { text } => EffectView::AppendBody(text@),
        }
    }
}

/// The abstract values of effects.
pub open spec fn effect_views(effects: Seq<ActionEffect>) -> Seq<EffectView> {
    effects.map_values(|e: ActionEffect| e.view())
}

/// An action a client offers on notes.
#[derive(Debug, PartialEq, Eq)]
pub struct ActionDescriptor {
    pub id: String,
    pub description: String,
    pub predicate: Predicate,
    pub effects: Vec<ActionEffect>,
    pub plugin: Option<ActionPlugin>,
}

/// The capabilities granted to one action, in ascending order.
#[derive(Clone, Debug, PartialEq, Eq)]
pub struct CapabilityGrant {
    pub action: String,
    pub capabilities: Vec<Capability>,
}

/// The views, actions and templates of a workspace. Grants are listed in
/// ascending order of action without repetition.
#[derive(Debug, PartialEq, Eq)]
pub struct WorkspaceBehavior {
    pub schema: u16,
    pub default_view: String,
    pub views: Vec<ViewDescriptor>,
    pub actions: Vec<ActionDescriptor>,
    pub templates: Vec<TemplateDescriptor>,
    pub capability_grants: Vec<CapabilityGrant>,
    pub query_limit: usize,
}

impl Default for WorkspaceBehavior {
    fn default() -> (result: WorkspaceBehavior)
        ensures
            result.schema == BEHAVIOR_SCHEMA,
            result.default_view@ == "all"@,
            result.views@.len() == 0,
            result.actions@.len() == 0,
            result.templates@.len() == 0,
            result.capability_grants@.len() == 0,
            result.query_limit == DEFAULT_QUERY_LIMIT,
    {
        WorkspaceBehavior {
            schema: BEHAVIOR_SCHEMA,
            default_view: "all".to_owned(),
            views: Vec::new(),
            actions: Vec::new(),
            templates: Vec::new(),
            capability_grants: Vec::new(),
            query_limit: DEFAULT_QUERY_LIMIT,
        }
    }
}

/// The abstract value of a `BehaviorError`.
pub enum BehaviorErrorView {
    UnsupportedSchema(u16),
    Duplicate { kind: Seq<char>, id: Seq<char> },
    UnknownView(Seq<char>),
    UnknownSubview(Seq<char>),
    UnknownAction(Seq<char>),
    ActionUnavailable(Seq<char>),
    CapabilityDenied { action: Seq<char>, capability: Capability },
    InvalidQueryLimit,
}

impl BehaviorError {
    pub open spec fn view(self) -> BehaviorErrorView {
        match self {
            BehaviorError::UnsupportedSchema(v) => BehaviorErrorView::UnsupportedSchema(v),
            BehaviorError::Duplicate { kind, id } => BehaviorErrorView::Duplicate {
                kind: kind@,
                id: id@,
            },
            BehaviorError::UnknownView(v) => BehaviorErrorView::UnknownView(v@),
            BehaviorError::UnknownSubview(v) => BehaviorErrorView::UnknownSubview(v@),
            BehaviorError::UnknownAction(v) => BehaviorErrorView::UnknownAction(v@),
            BehaviorError::ActionUnavailable(v) => BehaviorErrorView::ActionUnavailable(v@),
            BehaviorError::CapabilityDenied { action, capability } => BehaviorErrorView::CapabilityDenied {
                action: action@,
                capability,
            },
            BehaviorError::InvalidQueryLimit => BehaviorErrorView::InvalidQueryLimit,
        }
    }
}

/// Whether the identifier at `i` is empty or repeats an earlier one.
pub open spec fn id_clash(ids: Seq<Seq<char>>, i: int) -> bool {
    ids[i].len() == 0 || exists|j: int| 0 <= j < i && ids[j] == ids[i]
}

/// Whether `i` is the first clashing identifier.
pub open spec fn first_clash_at(ids: Seq<Seq<char>>, i: int) -> bool {
    0 <= i < ids.len() && id_clash(ids, i) && forall|j: int| 0 <= j < i ==> !id_clash(ids, j)
}

/// The error for the first identifier of `kind` that is empty or repeated.
pub open spec fn duplicate_error(kind: Seq<char>, ids: Seq<Seq<char>>) -> Option<BehaviorErrorView> {
    if exists|i: int| first_clash_at(ids, i) {
        let i = choose|i: int| first_clash_at(ids, i);
        Some(BehaviorErrorView::Duplicate { kind, id: ids[i] })
    } else {
        None
    }
}

/// There is at most one first clash.
proof fn lemma_first_clash_unique(ids: Seq<Seq<char>>, i: int, k: int)
    requires
        first_clash_at(ids, i),
        first_clash_at(ids, k),
    ensures
        i == k,
{
}

/// Refuse an empty or repeated identifier.
fn check_unique(kind: &'static str, ids: &Vec<String>) -> (result: Result<(), BehaviorError>)
    ensures
        match duplicate_error(kind@, string_views(ids@)) {
            Some(e) => result matches Err(error) && error.view() == e,
            None => result is Ok,
        },
{
    let ghost v = string_views(ids@);
    let mut i: usize = 0;
    while i < ids.len()
        invariant
            i <= ids@.len(),
            v == string_views(ids@),
            forall|j: int| 0 <= j < i ==> !id_clash(v, j),
        decreases ids@.len() - i,
    {
        let current = chars_of(ids[i].as_str());
        let mut clash = current.len() == 0;
        let mut j: usize = 0;
        while j < i && !clash
            invariant
                j <= i < ids@.len(),
                v == string_views(ids@),
                current@ == v[i as int],
                clash ==> id_clash(v, i as int),
                !clash ==> current@.len() > 0 && forall|k: int| 0 <= k < j ==> v[k] != v[i as int],
            decreases i - j,
        {
            if eq_str(current.as_slice(), ids[j].as_str()) {
                assert(v[j as int] == v[i as int]);
                clash = true;
            }
            j = j + 1;
        }
        if clash {
            proof {
                assert(first_clash_at(v, i as int));
                let k = choose|k: int| first_clash_at(v, k);
                lemma_first_clash_unique(v, i as int, k);
            }
            return Err(BehaviorError::Duplicate { kind, id: ids[i].clone() });
        }
        i = i + 1;
    }
    proof {
        if exists|k: int| first_clash_at(v, k) {
            let k = choose|k: int| first_clash_at(v, k);
            assert(!id_clash(v, k));
        }
    }
    Ok(())
}

/// The identifiers of views.
pub open spec fn view_ids(views: Seq<ViewDescriptor>) -> Seq<Seq<char>> {
    views.map_values(|v: ViewDescriptor| v.id@)
}

/// The identifiers of subviews.
pub open spec fn subview_ids(subviews: Seq<SubviewDescriptor>) -> Seq<Seq<char>> {
    subviews.map_values(|v: SubviewDescriptor| v.id@)
}

/// The identifiers of actions.
pub open spec fn action_ids(actions: Seq<ActionDescriptor>) -> Seq<Seq<char>> {
    actions.map_values(|v: ActionDescriptor| v.id@)
}

/// The identifiers of templates.
pub open spec fn template_ids(templates: Seq<TemplateDescriptor>) -> Seq<Seq<char>> {
    templates.map_values(|v: TemplateDescriptor| v.id@)
}

/// The first error among the subviews of the views, view by view.
pub open spec fn subviews_error(views: Seq<ViewDescriptor>) -> Option<BehaviorErrorView>
    decreases views.len(),
{
    if views.len() == 0 {
        None
    } else {
        match duplicate_error("subview"@, subview_ids(views[0].subviews@)) {
            Some(e) => Some(e),
            None => subviews_error(views.drop_first()),
        }
    }
}

/// Whether some view has identifier `id`.
pub open spec fn has_view(views: Seq<ViewDescriptor>, id: Seq<char>) -> bool {
    exists|i: int| 0 <= i < views.len() && (#[trigger] views[i]).id@ == id
}

/// Which error, if any, validating a behavior reports.
pub open spec fn validation_error(b: WorkspaceBehavior) -> Option<BehaviorErrorView> {
    if b.schema != BEHAVIOR_SCHEMA {
        Some(BehaviorErrorView::UnsupportedSchema(b.schema))
    } else if !(1 <= b.query_limit <= DEFAULT_QUERY_LIMIT) {
        Some(BehaviorErrorView::InvalidQueryLimit)
    } else if duplicate_error("view"@, view_ids(b.views@)) is Some {
        duplicate_error("view"@, view_ids(b.views@))
    } else if duplicate_error("action"@, action_ids(b.actions@)) is Some {
        duplicate_error("action"@, action_ids(b.actions@))
    } else if duplicate_error("template"@, template_ids(b.templates@)) is Some {
        duplicate_error("template"@, template_ids(b.templates@))
    } else if subviews_error(b.views@) is Some {
        subviews_error(b.views@)
    } else if b.default_view@ != "all"@ && !has_view(b.views@, b.default_view@) {
        Some(BehaviorErrorView::UnknownView(b.default_view@))
    } else {
        None
    }
}

fn collect_view_ids(views: &Vec<ViewDescriptor>) -> (result: Vec<String>)
    ensures
        string_views(result@) == view_ids(views@),
{
    let mut result: Vec<String> = Vec::new();
    let mut i: usize = 0;
    while i < views.len()
        invariant
            i <= views@.len(),
            string_views(result@) == view_ids(views@).take(i as int),
        decreases views@.len() - i,
    {
        let ghost before = string_views(result@);
        let id = views[i].id.clone();
        result.push(id);
        proof {
            assert(string_views(result@) =~= before.push(views@[i as int].id@));
            assert(view_ids(views@).take(i + 1) =~= view_ids(views@).take(i as int).push(view_ids(views@)[i as int]));
        }
        i = i + 1;
    }
    assert(view_ids(views@).take(i as int) =~= view_ids(views@));
    result
}

fn collect_subview_ids(subviews: &Vec<SubviewDescriptor>) -> (result: Vec<String>)
    ensures
        string_views(result@) == subview_ids(subviews@),
{
    let mut result: Vec<String> = Vec::new();
    let mut i: usize = 0;
    while i < subviews.len()
        invariant
            i <= subviews@.len(),
            string_views(result@) == subview_ids(subviews@).take(i as int),
        decreases subviews@.len() - i,
    {
        let ghost before = string_views(result@);
        let id = subviews[i].id.clone();
        result.push(id);
        proof {
            assert(string_views(result@) =~= before.push(subviews@[i as int].id@));
            assert(subview_ids(subviews@).take(i + 1) =~= subview_ids(subviews@).take(i as int).push(subview_ids(subviews@)[i as int]));
        }
        i = i + 1;
    }
    assert(subview_ids(subviews@).take(i as int) =~= subview_ids(subviews@));
    result
}

fn collect_action_ids(actions: &Vec<ActionDescriptor>) -> (result: Vec<String>)
    ensures
        string_views(result@) == action_ids(actions@),
{
    let mut result: Vec<String> = Vec::new();
    let mut i: usize = 0;
    while i < actions.len()
        invariant
            i <= actions@.len(),
            string_views(result@) == action_ids(actions@).take(i as int),
        decreases actions@.len() - i,
    {
        let ghost before = string_views(result@);
        let id = actions[i].id.clone();
        result.push(id);
        proof {
            assert(string_views(result@) =~= before.push(actions@[i as int].id@));
            assert(action_ids(actions@).take(i + 1) =~= action_ids(actions@).take(i as int).push(action_ids(actions@)[i as int]));
        }
        i = i + 1;
    }
    assert(action_ids(actions@).take(i as int) =~= action_ids(actions@));
    result
}

fn collect_template_ids(templates: &Vec<TemplateDescriptor>) -> (result: Vec<String>)
    ensures
        string_views(result@) == template_ids(templates@),
{
    let mut result: Vec<String> = Vec::new();
    let mut i: usize = 0;
    while i < templates.len()
        invariant
            i <= templates@.len(),
            string_views(result@) == template_ids(templates@).take(i as int),
        decreases templates@.len() - i,
    {
        let ghost before = string_views(result@);
        let id = templates[i].id.clone();
        result.push(id);
        proof {
            assert(string_views(result@) =~= before.push(templates@[i as int].id@));
            assert(template_ids(templates@).take(i + 1) =~= template_ids(templates@).take(i as int).push(template_ids(templates@)[i as int]));
        }
        i = i + 1;
    }
    assert(template_ids(templates@).take(i as int) =~= template_ids(templates@));
    result
}

impl WorkspaceBehavior {
    /// Check the description: its schema, its query limit, that identifiers
    /// are present and unique per kind, and that the default view exists.
    pub fn validate(&self) -> (result: Result<(), BehaviorError>)
        ensures
            match validation_error(*self) {
                Some(e) => result matches Err(error) && error.view() == e,
                None => result is Ok,
            },
    {
        if self.schema != BEHAVIOR_SCHEMA {
            return Err(BehaviorError::UnsupportedSchema(self.schema));
        }
        if self.query_limit < 1 || self.query_limit > DEFAULT_QUERY_LIMIT {
            return Err(BehaviorError::InvalidQueryLimit);
        }
        let ids = collect_view_ids(&self.views);
        if let Err(error) = check_unique("view", &ids) {
            return Err(error);
        }
        let ids = collect_action_ids(&self.actions);
        if let Err(error) = check_unique("action", &ids) {
            return Err(error);
        }
        let ids = collect_template_ids(&self.templates);
        if let Err(error) = check_unique("template", &ids) {
            return Err(error);
        }
        let mut i: usize = 0;
        assert(self.views@.skip(0) =~= self.views@);
        while i < self.views.len()
            invariant
                i <= self.views@.len(),
                self.schema == BEHAVIOR_SCHEMA,
                1 <= self.query_limit <= DEFAULT_QUERY_LIMIT,
                duplicate_error("view"@, view_ids(self.views@)) is None,
                duplicate_error("action"@, action_ids(self.actions@)) is None,
                duplicate_error("template"@, template_ids(self.templates@)) is None,
                subviews_error(self.views@) == subviews_error(self.views@.skip(i as int)),
            decreases self.views@.len() - i,
        {
            proof {
                assert(self.views@.skip(i as int).drop_first() =~= self.views@.skip(i + 1));
                assert(self.views@.skip(i as int)[0] == self.views@[i as int]);
            }
            let ids = collect_subview_ids(&self.views[i].subviews);
            if let Err(error) = check_unique("subview", &ids) {
                return Err(error);
            }
            i = i + 1;
        }
        let wanted = chars_of(self.default_view.as_str());
        if !eq_str(wanted.as_slice(), "all") {
            let mut k: usize = 0;
            let mut found = false;
            while k < self.views.len() && !found
                invariant
                    k <= self.views@.len(),
                    wanted@ == self.default_view@,
                    found ==> has_view(self.views@, self.default_view@),
                    !found ==> forall|j: int| 0 <= j < k ==> (#[trigger] self.views@[j]).id@ != self.default_view@,
                decreases self.views@.len() - k,
            {
                if eq_str(wanted.as_slice(), self.views[k].id.as_str()) {
                    found = true;
                }
                k = k + 1;
            }
            if !found {
                return Err(BehaviorError::UnknownView(self.default_view.clone()));
            }
        }
        Ok(())
    }
}

/// The actions that grants name.
pub open spec fn grant_actions(grants: Seq<CapabilityGrant>) -> Seq<Seq<char>> {
    grants.map_values(|g: CapabilityGrant| g.action@)
}

/// Whether the grants give action `id` capability `c`.
pub open spec fn granted(grants: Seq<CapabilityGrant>, id: Seq<char>, c: Capability) -> bool {
    match first_position(grant_actions(grants), id) {
        Some(g) => grants[g].capabilities@.contains(c),
        None => false,
    }
}

/// Whether running action `a` needs capability `c`: its plugin needs it, or
/// it changes the note and `c` is `MutateNote`.
pub open spec fn needs(a: ActionDescriptor, c: Capability) -> bool {
    ||| (a.plugin matches Some(p) && required_capabilities_spec(p).contains(c))
    ||| (c == Capability::MutateNote && a.effects@.len() > 0)
}

/// Whether action `a`, named `id`, needs `c` without being granted it.
pub open spec fn lacks(grants: Seq<CapabilityGrant>, a: ActionDescriptor, id: Seq<char>, c: Capability) -> bool {
    needs(a, c) && !granted(grants, id, c)
}

/// The first capability, in ascending order, that the action needs and lacks.
pub open spec fn denied_capability(grants: Seq<CapabilityGrant>, a: ActionDescriptor, id: Seq<char>) -> Option<Capability> {
    if lacks(grants, a, id, Capability::CreateNote) {
        Some(Capability::CreateNote)
    } else if lacks(grants, a, id, Capability::MutateNote) {
        Some(Capability::MutateNote)
    } else if lacks(grants, a, id, Capability::Network) {
        Some(Capability::Network)
    } else if lacks(grants, a, id, Capability::ReadSecret) {
        Some(Capability::ReadSecret)
    } else {
        None
    }
}

/// Whether action `a` is offered: on a note it selects, or, for a plugin
/// action that applies to every note, without a note.
pub open spec fn available(a: ActionDescriptor, note: Option<NoteFacts>) -> bool {
    ||| (a.plugin is Some && note is None && a.predicate == Predicate::Always)
    ||| (note matches Some(n) && matches_spec(a.predicate, n))
}

/// The index of the action that may run, or the error that refuses it.
pub open spec fn action_outcome(b: WorkspaceBehavior, note: Option<NoteFacts>, id: Seq<char>) -> Result<int, BehaviorErrorView> {
    match first_position(action_ids(b.actions@), id) {
        None => Err(BehaviorErrorView::UnknownAction(id)),
        Some(k) => {
            let a = b.actions@[k];
            if !available(a, note) {
                Err(BehaviorErrorView::ActionUnavailable(id))
            } else {
                match denied_capability(b.capability_grants@, a, id) {
                    Some(c) => Err(BehaviorErrorView::CapabilityDenied { action: id, capability: c }),
                    None => Ok(k),
                }
            }
        },
    }
}

/// The facts of an optional note.
pub open spec fn note_view(note: Option<&NoteFacts>) -> Option<NoteFacts> {
    match note {
        Some(n) => Some(*n),
        None => None,
    }
}

fn contains_capability(list: &Vec<Capability>, c: Capability) -> (result: bool)
    ensures
        result == list@.contains(c),
{
    let mut i: usize = 0;
    while i < list.len()
        invariant
            i <= list@.len(),
            forall|j: int| 0 <= j < i ==> list@[j] != c,
        decreases list@.len() - i,
    {
        if list[i] == c {
            assert(list@[i as int] == c);
            return true;
        }
        i = i + 1;
    }
    false
}

impl WorkspaceBehavior {
    /// The position of the first action named `id`.
    fn action_position(&self, id: &str) -> (result: Option<usize>)
        ensures
            match result {
                Some(k) => first_position(action_ids(self.actions@), id@) == Some(k as int) && k
                    < self.actions@.len(),
                None => first_position(action_ids(self.actions@), id@) is None,
            },
    {
        let ghost ids = action_ids(self.actions@);
        let wanted = chars_of(id);
        let mut k: usize = 0;
        while k < self.actions.len()
            invariant
                k <= self.actions@.len(),
                ids == action_ids(self.actions@),
                wanted@ == id@,
                forall|j: int| 0 <= j < k ==> ids[j] != id@,
            decreases self.actions@.len() - k,
        {
            if eq_str(wanted.as_slice(), self.actions[k].id.as_str()) {
                proof {
                    lemma_first_position(ids, id@, k as int);
                }
                return Some(k);
            }
            k = k + 1;
        }
        proof {
            lemma_first_position(ids, id@, k as int);
        }
        None
    }

    /// Whether the grants give action `id` capability `c`.
    fn is_granted(&self, id: &str, c: Capability) -> (result: bool)
        ensures
            result == granted(self.capability_grants@, id@, c),
    {
        let ghost actions = grant_actions(self.capability_grants@);
        let wanted = chars_of(id);
        let mut g: usize = 0;
        while g < self.capability_grants.len()
            invariant
                g <= self.capability_grants@.len(),
                actions == grant_actions(self.capability_grants@),
                wanted@ == id@,
                forall|j: int| 0 <= j < g ==> actions[j] != id@,
            decreases self.capability_grants@.len() - g,
        {
            if eq_str(wanted.as_slice(), self.capability_grants[g].action.as_str()) {
                proof {
                    lemma_first_position(actions, id@, g as int);
                }
                return contains_capability(&self.capability_grants[g].capabilities, c);
            }
            g = g + 1;
        }
        proof {
            lemma_first_position(actions, id@, g as int);
        }
        false
    }

    /// Whether action `a`, named `id`, needs `c` without being granted it.
    fn lacks_capability(&self, a: &ActionDescriptor, id: &str, c: Capability) -> (result: bool)
        ensures
            result == lacks(self.capability_grants@, *a, id@, c),
    {
        let needed = match &a.plugin {
            Some(plugin) => {
                let required = plugin.required_capabilities();
                contains_capability(&required, c)
            },
            None => false,
        } || (c == Capability::MutateNote && a.effects.len() > 0);
        needed && !self.is_granted(id, c)
    }

    /// The action named `id`, if it is offered for `note` (or, for a plugin
    /// action that applies to every note, without one) and every capability
    /// it needs is granted to it.
    pub fn action(&self, note: Option<&NoteFacts>, id: &str) -> (result: Result<&ActionDescriptor, BehaviorError>)
        requires
            note matches Some(n) ==> n.fields.wf(),
        ensures
            match action_outcome(*self, note_view(note), id@) {
                Ok(k) => result matches Ok(a) && *a == self.actions@[k],
                Err(e) => result matches Err(error) && error.view() == e,
            },
    {
        let k = match self.action_position(id) {
            Some(k) => k,
            None => {
                return Err(BehaviorError::UnknownAction(id.to_owned()));
            },
        };
        let action = &self.actions[k];
        let without_note = action.plugin.is_some() && note.is_none() && match &action.predicate {
            Predicate::Always => true,
            _ => false,
        };
        let offered = without_note || match note {
            Some(n) => action.predicate.matches(n),
            None => false,
        };
        if !offered {
            return Err(BehaviorError::ActionUnavailable(id.to_owned()));
        }
        if self.lacks_capability(action, id, Capability::CreateNote) {
            return Err(BehaviorError::CapabilityDenied { action: id.to_owned(), capability: Capability::CreateNote });
        }
        if self.lacks_capability(action, id, Capability::MutateNote) {
            return Err(BehaviorError::CapabilityDenied { action: id.to_owned(), capability: Capability::MutateNote });
        }
        if self.lacks_capability(action, id, Capability::Network) {
            return Err(BehaviorError::CapabilityDenied { action: id.to_owned(), capability: Capability::Network });
        }
        if self.lacks_capability(action, id, Capability::ReadSecret) {
            return Err(BehaviorError::CapabilityDenied { action: id.to_owned(), capability: Capability::ReadSecret });
        }
        Ok(action)
    }
}

/// The view a query names: none for the empty name or `all`.
pub open spec fn view_choice(b: WorkspaceBehavior, q: Query) -> Result<Option<int>, BehaviorErrorView> {
    if q.view@.len() == 0 || q.view@ == "all"@ {
        Ok(None)
    } else {
        match first_position(view_ids(b.views@), q.view@) {
            Some(k) => Ok(Some(k)),
            None => Err(BehaviorErrorView::UnknownView(q.view@)),
        }
    }
}

/// The subview a query names within its view.
pub open spec fn subview_choice(b: WorkspaceBehavior, view: Option<int>, q: Query) -> Result<Option<int>, BehaviorErrorView> {
    match q.subview {
        None => Ok(None),
        Some(id) => match view {
            Some(k) => match first_position(subview_ids(b.views@[k].subviews@), id@) {
                Some(j) => Ok(Some(j)),
                None => Err(BehaviorErrorView::UnknownSubview(id@)),
            },
            None => Err(BehaviorErrorView::UnknownSubview(id@)),
        },
    }
}

/// The view and subview a query runs against, or the error that refuses it.
pub open spec fn query_choice(b: WorkspaceBehavior, q: Query) -> Result<(Option<int>, Option<int>), BehaviorErrorView> {
    match validation_error(b) {
        Some(e) => Err(e),
        None => match view_choice(b, q) {
            Err(e) => Err(e),
            Ok(view) => match subview_choice(b, view, q) {
                Err(e) => Err(e),
                Ok(sub) => Ok((view, sub)),
            },
        },
    }
}

/// Whether a query against `view` and `sub` selects the note.
pub open spec fn selects(b: WorkspaceBehavior, view: Option<int>, sub: Option<int>, q: Query, note: NoteFacts) -> bool {
    &&& (view matches Some(k) ==> matches_spec(b.views@[k].predicate, note))
    &&& (view matches Some(k) ==> (sub matches Some(j) ==> matches_spec(
        b.views@[k].subviews@[j].predicate,
        note,
    )))
    &&& (q.title matches Some(t) ==> contains_spec(
        lowercase_spec(field_spec(note, "title"@)),
        lowercase_spec(t@),
    ))
    &&& forall|i: int| 0 <= i < q.tags@.len() ==> has_tag(note, (#[trigger] q.tags@[i])@)
}

/// The field a view sorts by: its own, or `created`.
pub open spec fn sort_field_of(b: WorkspaceBehavior, view: Option<int>) -> Seq<char> {
    match view {
        Some(k) => match b.views@[k].sort_field {
            Some(f) => f@,
            None => "created"@,
        },
        None => "created"@,
    }
}

/// Whether the view lists its notes in descending order.
pub open spec fn descending_of(b: WorkspaceBehavior, view: Option<int>) -> bool {
    match view {
        Some(k) => b.views@[k].descending,
        None => false,
    }
}

/// How many notes a query returns at most.
pub open spec fn limit_of(b: WorkspaceBehavior, q: Query) -> int {
    match q.limit {
        Some(l) => if l < b.query_limit {
            l as int
        } else {
            b.query_limit as int
        },
        None => b.query_limit as int,
    }
}

/// The sort key of a note: its sort field, lowercased.
pub open spec fn note_key(note: NoteFacts, field_name: Seq<char>) -> Seq<char> {
    lowercase_spec(field_spec(note, field_name))
}

/// Whether note `a` comes before note `c` in ascending order: by sort key,
/// then by identifier, then by position in the input.
pub open spec fn precedes(notes: Seq<NoteFacts>, field_name: Seq<char>, a: int, c: int) -> bool {
    let ka = note_key(notes[a], field_name);
    let kc = note_key(notes[c], field_name);
    ||| lex_order(ka, kc) < 0
    ||| (ka == kc && lex_order(notes[a].id@, notes[c].id@) < 0)
    ||| (ka == kc && notes[a].id@ == notes[c].id@ && a < c)
}

/// Whether `s` lists, in ascending order, exactly the positions of the
/// notes that `wanted` selects.
pub open spec fn sorted_selection(notes: Seq<NoteFacts>, field_name: Seq<char>, wanted: spec_fn(int) -> bool, s: Seq<int>) -> bool {
    &&& forall|i: int| 0 <= i < s.len() ==> 0 <= #[trigger] s[i] < notes.len() && wanted(s[i])
    &&& forall|x: int| 0 <= x < notes.len() && #[trigger] wanted(x) ==> s.contains(x)
    &&& forall|i: int, j: int| 0 <= i < j < s.len() ==> precedes(notes, field_name, #[trigger] s[i], #[trigger] s[j])
}

/// The listed notes: in view order, at most `limit` of them.
pub open spec fn finish(s: Seq<int>, descending: bool, limit: int) -> Seq<int> {
    let ordered = if descending {
        s.reverse()
    } else {
        s
    };
    if limit < ordered.len() {
        ordered.take(limit)
    } else {
        ordered
    }
}

/// Positions as integers.
pub open spec fn positions(r: Seq<usize>) -> Seq<int> {
    r.map_values(|x: usize| x as int)
}

/// `precedes` is transitive.
proof fn lemma_precedes_trans(notes: Seq<NoteFacts>, f: Seq<char>, a: int, b: int, c: int)
    requires
        precedes(notes, f, a, b),
        precedes(notes, f, b, c),
    ensures
        precedes(notes, f, a, c),
{
    let ka = note_key(notes[a], f);
    let kb = note_key(notes[b], f);
    let kc = note_key(notes[c], f);
    lemma_lex_order_antisym(ka, kb);
    lemma_lex_order_antisym(kb, kc);
    lemma_lex_order_antisym(ka, kc);
    lemma_lex_order_antisym(notes[a].id@, notes[b].id@);
    lemma_lex_order_antisym(notes[b].id@, notes[c].id@);
    lemma_lex_order_antisym(notes[a].id@, notes[c].id@);
    if lex_order(ka, kb) < 0 && lex_order(kb, kc) < 0 {
        lemma_lex_order_trans(ka, kb, kc);
    }
    if ka == kb && kb == kc && lex_order(notes[a].id@, notes[b].id@) < 0 && lex_order(notes[b].id@, notes[c].id@) < 0 {
        lemma_lex_order_trans(notes[a].id@, notes[b].id@, notes[c].id@);
    }
}

/// Two different positions are ordered one way or the other.
proof fn lemma_precedes_total(notes: Seq<NoteFacts>, f: Seq<char>, a: int, c: int)
    requires
        a != c,
    ensures
        precedes(notes, f, a, c) || precedes(notes, f, c, a),
        !(precedes(notes, f, a, c) && precedes(notes, f, c, a)),
{
    lemma_lex_order_antisym(note_key(notes[a], f), note_key(notes[c], f));
    lemma_lex_order_antisym(notes[a].id@, notes[c].id@);
}

/// Whether `a` comes before `c`, given the sort keys of all notes.
fn precedes_exec(notes: &Vec<NoteFacts>, keys: &Vec<String>, field_name: &str, a: usize, c: usize) -> (result: bool)
    requires
        a < notes@.len(),
        c < notes@.len(),
        keys@.len() == notes@.len(),
        forall|i: int| 0 <= i < notes@.len() ==> (#[trigger] keys@[i])@ == note_key(notes@[i], field_name@),
    ensures
        result == precedes(notes@, field_name@, a as int, c as int),
{
    let ghost ka = keys@[a as int]@;
    let ghost kc = keys@[c as int]@;
    proof {
        lemma_lex_order_antisym(ka, kc);
        lemma_lex_order_antisym(notes@[a as int].id@, notes@[c as int].id@);
    }
    match compare_str(keys[a].as_str(), keys[c].as_str()) {
        Order::Less => true,
        Order::Greater => false,
        Order::Equal => match compare_str(notes[a].id.as_str(), notes[c].id.as_str()) {
            Order::Less => true,
            Order::Greater => false,
            Order::Equal => a < c,
        },
    }
}

/// Whether the note at `x` comes before every note of `s` from `p` on.
proof fn lemma_insert_sorted_position(notes: Seq<NoteFacts>, f: Seq<char>, s: Seq<int>, p: int, x: int)
    requires
        0 <= p <= s.len(),
        forall|i: int, j: int| 0 <= i < j < s.len() ==> precedes(notes, f, #[trigger] s[i], #[trigger] s[j]),
        forall|i: int| 0 <= i < p ==> precedes(notes, f, #[trigger] s[i], x),
        p < s.len() ==> precedes(notes, f, x, s[p]),
    ensures
        forall|i: int, j: int| 0 <= i < j < s.insert(p, x).len() ==> precedes(notes, f, #[trigger] s.insert(p, x)[i], #[trigger] s.insert(p, x)[j]),
{
    let t = s.insert(p, x);
    assert forall|i: int, j: int| 0 <= i < j < t.len() implies precedes(notes, f, #[trigger] t[i], #[trigger] t[j]) by {
        if j < p {
            assert(t[i] == s[i] && t[j] == s[j]);
        } else if j == p {
            assert(t[i] == s[i] && t[j] == x);
        } else if i < p {
            assert(t[i] == s[i] && t[j] == s[j - 1]);
            if j - 1 == p {
                lemma_precedes_trans(notes, f, s[i], x, s[p]);
            } else {
                lemma_precedes_trans(notes, f, s[i], x, s[p]);
                lemma_precedes_trans(notes, f, s[i], s[p], s[j - 1]);
            }
        } else if i == p {
            assert(t[i] == x && t[j] == s[j - 1]);
            if j - 1 > p {
                lemma_precedes_trans(notes, f, x, s[p], s[j - 1]);
            }
        } else {
            assert(t[i] == s[i - 1] && t[j] == s[j - 1]);
        }
    }
}

impl WorkspaceBehavior {
    /// The position of the first view named `id`.
    fn view_position(&self, id: &str) -> (result: Option<usize>)
        ensures
            match result {
                Some(k) => first_position(view_ids(self.views@), id@) == Some(k as int) && k
                    < self.views@.len(),
                None => first_position(view_ids(self.views@), id@) is None,
            },
    {
        let ghost ids = view_ids(self.views@);
        let wanted = chars_of(id);
        let mut k: usize = 0;
        while k < self.views.len()
            invariant
                k <= self.views@.len(),
                ids == view_ids(self.views@),
                wanted@ == id@,
                forall|j: int| 0 <= j < k ==> ids[j] != id@,
            decreases self.views@.len() - k,
        {
            if eq_str(wanted.as_slice(), self.views[k].id.as_str()) {
                proof {
                    lemma_first_position(ids, id@, k as int);
                }
                return Some(k);
            }
            k = k + 1;
        }
        proof {
            lemma_first_position(ids, id@, k as int);
        }
        None
    }
}

/// The position of the first subview named `id`.
fn subview_position(subviews: &Vec<SubviewDescriptor>, id: &str) -> (result: Option<usize>)
    ensures
        match result {
            Some(k) => first_position(subview_ids(subviews@), id@) == Some(k as int) && k
                < subviews@.len(),
            None => first_position(subview_ids(subviews@), id@) is None,
        },
{
    let ghost ids = subview_ids(subviews@);
    let wanted = chars_of(id);
    let mut k: usize = 0;
    while k < subviews.len()
        invariant
            k <= subviews@.len(),
            ids == subview_ids(subviews@),
            wanted@ == id@,
            forall|j: int| 0 <= j < k ==> ids[j] != id@,
        decreases subviews@.len() - k,
    {
        if eq_str(wanted.as_slice(), subviews[k].id.as_str()) {
            proof {
                lemma_first_position(ids, id@, k as int);
            }
            return Some(k);
        }
        k = k + 1;
    }
    proof {
        lemma_first_position(ids, id@, k as int);
    }
    None
}

impl WorkspaceBehavior {
    /// Whether a query against `view` and `sub` selects the note; `needle`
    /// is the lowercased title the query looks for.
    fn note_selected(
        &self,
        view: Option<usize>,
        sub: Option<usize>,
        q: &Query,
        needle: &Option<String>,
        note: &NoteFacts,
    ) -> (result: bool)
        requires
            note.fields.wf(),
            view matches Some(k) ==> k < self.views@.len(),
            sub matches Some(j) ==> (view matches Some(k) && j < self.views@[k as int].subviews@.len()),
            match q.title {
                Some(t) => needle matches Some(n) && n@ == lowercase_spec(t@),
                None => needle is None,
            },
        ensures
            result == selects(
                *self,
                match view {
                    Some(k) => Some(k as int),
                    None => None,
                },
                match sub {
                    Some(j) => Some(j as int),
                    None => None,
                },
                *q,
                *note,
            ),
    {
        if let Some(k) = view {
            if !self.views[k].predicate.matches(note) {
                return false;
            }
            if let Some(j) = sub {
                if !self.views[k].subviews[j].predicate.matches(note) {
                    return false;
                }
            }
        }
        if let Some(n) = needle {
            let title = field(note, "title");
            let lower = lowercase(title.as_str());
            let chars = chars_of(lower.as_str());
            if !contains_str(chars.as_slice(), n.as_str()) {
                return false;
            }
        }
        let mut i: usize = 0;
        while i < q.tags.len()
            invariant
                i <= q.tags@.len(),
                forall|j: int| 0 <= j < i ==> has_tag(*note, (#[trigger] q.tags@[j])@),
            decreases q.tags@.len() - i,
        {
            match find_string(&note.tags, q.tags[i].as_str()) {
                Some(t) => {
                    assert(string_views(note.tags@)[t as int] == q.tags@[i as int]@);
                },
                None => {
                    return false;
                },
            }
            i = i + 1;
        }
        true
    }

    /// The notes of a view: those its predicate (and the subview's) selects,
    /// whose lowercased title holds the lowercased `title` and which carry
    /// every tag asked for, sorted by the view's sort field (lowercased), then
    /// identifier, descending where the view says so, and at most the limit.
    /// The result lists positions in `notes`.
    pub fn query(&self, notes: &Vec<NoteFacts>, q: &Query) -> (result: Result<Vec<usize>, BehaviorError>)
        requires
            forall|i: int| 0 <= i < notes@.len() ==> (#[trigger] notes@[i]).fields.wf(),
        ensures
            match query_choice(*self, *q) {
                Err(e) => result matches Err(error) && error.view() == e,
                Ok((view, sub)) => result matches Ok(r) && exists|s: Seq<int>|
                    sorted_selection(
                        notes@,
                        sort_field_of(*self, view),
                        |x: int| selects(*self, view, sub, *q, notes@[x]),
                        s,
                    ) && positions(r@) == finish(
                        s,
                        descending_of(*self, view),
                        limit_of(*self, *q),
                    ),
            },
    {
        if let Err(error) = self.validate() {
            return Err(error);
        }
        let name = chars_of(q.view.as_str());
        let view: Option<usize> = if name.len() == 0 || eq_str(name.as_slice(), "all") {
            None
        } else {
            match self.view_position(q.view.as_str()) {
                Some(k) => Some(k),
                None => {
                    return Err(BehaviorError::UnknownView(q.view.clone()));
                },
            }
        };
        let sub: Option<usize> = match &q.subview {
            None => None,
            Some(id) => match view {
                Some(k) => match subview_position(&self.views[k].subviews, id.as_str()) {
                    Some(j) => Some(j),
                    None => {
                        return Err(BehaviorError::UnknownSubview(id.clone()));
                    },
                },
                None => {
                    return Err(BehaviorError::UnknownSubview(id.clone()));
                },
            },
        };
        let ghost gview: Option<int> = match view {
            Some(k) => Some(k as int),
            None => None,
        };
        let ghost gsub: Option<int> = match sub {
            Some(j) => Some(j as int),
            None => None,
        };
        assert(query_choice(*self, *q) == Ok::<(Option<int>, Option<int>), BehaviorErrorView>((gview, gsub)));
        let needle: Option<String> = match &q.title {
            Some(t) => Some(lowercase(t.as_str())),
            None => None,
        };
        let limit: usize = match q.limit {
            Some(l) => if l < self.query_limit {
                l
            } else {
                self.query_limit
            },
            None => self.query_limit,
        };
        let field_name: String = match view {
            Some(k) => match &self.views[k].sort_field {
                Some(f) => f.clone(),
                None => "created".to_owned(),
            },
            None => "created".to_owned(),
        };
        let ghost f = sort_field_of(*self, gview);
        assert(field_name@ == f);
        let ghost wanted = |x: int| selects(*self, gview, gsub, *q, notes@[x]);
        let mut keys: Vec<String> = Vec::new();
        let mut i: usize = 0;
        while i < notes.len()
            invariant
                i <= notes@.len(),
                keys@.len() == i,
                field_name@ == f,
                forall|j: int| 0 <= j < notes@.len() ==> (#[trigger] notes@[j]).fields.wf(),
                forall|j: int| 0 <= j < i ==> (#[trigger] keys@[j])@ == note_key(notes@[j], f),
            decreases notes@.len() - i,
        {
            let text = field(&notes[i], field_name.as_str());
            keys.push(lowercase(text.as_str()));
            i = i + 1;
        }
        let mut sorted: Vec<usize> = Vec::new();
        let mut i: usize = 0;
        while i < notes.len()
            invariant
                i <= notes@.len(),
                keys@.len() == notes@.len(),
                field_name@ == f,
                forall|j: int| 0 <= j < notes@.len() ==> (#[trigger] notes@[j]).fields.wf(),
                forall|j: int| 0 <= j < notes@.len() ==> (#[trigger] keys@[j])@ == note_key(notes@[j], f),
                view matches Some(k) ==> k < self.views@.len(),
                sub matches Some(j) ==> (view matches Some(k) && j < self.views@[k as int].subviews@.len()),
                gview == match view {
                    Some(k) => Some(k as int),
                    None => None::<int>,
                },
                gsub == match sub {
                    Some(j) => Some(j as int),
                    None => None::<int>,
                },
                match q.title {
                    Some(t) => needle matches Some(n) && n@ == lowercase_spec(t@),
                    None => needle is None,
                },
                wanted == (|x: int| selects(*self, gview, gsub, *q, notes@[x])),
                forall|m: int| 0 <= m < sorted@.len() ==> (#[trigger] sorted@[m]) < i && wanted(sorted@[m] as int),
                forall|x: int| 0 <= x < i && #[trigger] wanted(x) ==> positions(sorted@).contains(x),
                forall|m: int, n: int| 0 <= m < n < sorted@.len() ==> precedes(notes@, f, #[trigger] sorted@[m] as int, #[trigger] sorted@[n] as int),
            decreases notes@.len() - i,
        {
            if self.note_selected(view, sub, q, &needle, &notes[i]) {
                let mut p: usize = 0;
                while p < sorted.len() && !precedes_exec(notes, &keys, field_name.as_str(), i, sorted[p])
                    invariant
                        p <= sorted@.len(),
                        i < notes@.len(),
                        keys@.len() == notes@.len(),
                        field_name@ == f,
                        forall|j: int| 0 <= j < notes@.len() ==> (#[trigger] keys@[j])@ == note_key(notes@[j], f),
                        forall|m: int| 0 <= m < sorted@.len() ==> (#[trigger] sorted@[m]) < i,
                        forall|m: int| 0 <= m < p ==> precedes(notes@, f, #[trigger] sorted@[m] as int, i as int),
                    decreases sorted@.len() - p,
                {
                    proof {
                        lemma_precedes_total(notes@, f, i as int, sorted@[p as int] as int);
                    }
                    p = p + 1;
                }
                let ghost before = positions(sorted@);
                proof {
                    lemma_insert_sorted_position(notes@, f, before, p as int, i as int);
                }
                sorted.insert(p, i);
                proof {
                    assert(positions(sorted@) =~= before.insert(p as int, i as int));
                    assert(wanted(i as int));
                    assert forall|m: int| 0 <= m < sorted@.len() implies (#[trigger] sorted@[m]) < i + 1 && wanted(sorted@[m] as int) by {
                        assert(positions(sorted@)[m] == sorted@[m] as int);
                        if m < p {
                            assert(before[m] == sorted@[m] as int);
                        } else if m > p {
                            assert(before[m - 1] == sorted@[m] as int);
                        }
                    }
                    assert forall|x: int| 0 <= x < i + 1 && #[trigger] wanted(x) implies positions(sorted@).contains(x) by {
                        if x < i {
                            let m = choose|m: int| 0 <= m < before.len() && before[m] == x;
                            if m < p {
                                assert(positions(sorted@)[m] == x);
                            } else {
                                assert(positions(sorted@)[m + 1] == x);
                            }
                        } else {
                            assert(positions(sorted@)[p as int] == x);
                        }
                    }
                    assert forall|m: int, n: int| 0 <= m < n < sorted@.len() implies precedes(notes@, f, #[trigger] sorted@[m] as int, #[trigger] sorted@[n] as int) by {
                        assert(positions(sorted@)[m] == sorted@[m] as int);
                        assert(positions(sorted@)[n] == sorted@[n] as int);
                    }
                }
            } else {
                proof {
                    assert forall|x: int| 0 <= x < i + 1 && #[trigger] wanted(x) implies positions(sorted@).contains(x) by {
                        if x == i {
                            assert(!wanted(x));
                        }
                    }
                }
            }
            i = i + 1;
        }
        let ghost s = positions(sorted@);
        assert(sorted_selection(notes@, f, wanted, s)) by {
            assert forall|m: int| 0 <= m < s.len() implies 0 <= #[trigger] s[m] < notes@.len() && wanted(s[m]) by {
                assert(s[m] == sorted@[m] as int);
            }
            assert forall|m: int, n: int| 0 <= m < n < s.len() implies precedes(notes@, f, #[trigger] s[m], #[trigger] s[n]) by {
                assert(s[m] == sorted@[m] as int);
                assert(s[n] == sorted@[n] as int);
            }
        }
        let descending = match view {
            Some(k) => self.views[k].descending,
            None => false,
        };
        let ghost ordered = if descending {
            s.reverse()
        } else {
            s
        };
        let count = if limit < sorted.len() {
            limit
        } else {
            sorted.len()
        };
        let mut result: Vec<usize> = Vec::new();
        let mut m: usize = 0;
        while m < count
            invariant
                m <= count <= sorted@.len(),
                s == positions(sorted@),
                ordered == (if descending {
                    s.reverse()
                } else {
                    s
                }),
                positions(result@) == ordered.take(m as int),
            decreases count - m,
        {
            let item = if descending {
                sorted[sorted.len() - 1 - m]
            } else {
                sorted[m]
            };
            proof {
                assert(item as int == ordered[m as int]);
            }
            let ghost before = positions(result@);
            result.push(item);
            proof {
                assert(positions(result@) =~= before.push(item as int));
                assert(ordered.take(m + 1) =~= ordered.take(m as int).push(ordered[m as int]));
            }
            m = m + 1;
        }
        proof {
            if !(limit < ordered.len()) {
                assert(ordered.take(m as int) =~= ordered);
            }
            assert(descending == descending_of(*self, gview));
            assert(limit as int == limit_of(*self, *q));
            assert(positions(result@) == finish(s, descending_of(*self, gview), limit_of(*self, *q)));
            assert(sorted_selection(
                notes@,
                sort_field_of(*self, gview),
                |x: int| selects(*self, gview, gsub, *q, notes@[x]),
                s,
            ));
        }
        Ok(result)
    }
}

/// No note comes before itself.
proof fn lemma_precedes_irreflexive(notes: Seq<NoteFacts>, f: Seq<char>, a: int)
    ensures
        !precedes(notes, f, a, a),
{
    lemma_lex_order_antisym(note_key(notes[a], f), note_key(notes[a], f));
    lemma_lex_order_antisym(notes[a].id@, notes[a].id@);
}

/// A query's answer is determined: there is only one ascending listing of
/// the selected notes.
pub proof fn lemma_sorted_selection_unique(
    notes: Seq<NoteFacts>,
    f: Seq<char>,
    wanted: spec_fn(int) -> bool,
    s: Seq<int>,
    t: Seq<int>,
)
    requires
        sorted_selection(notes, f, wanted, s),
        sorted_selection(notes, f, wanted, t),
    ensures
        s == t,
    decreases s.len(),
{
    if s.len() == 0 {
        if t.len() > 0 {
            assert(wanted(t[0]));
            assert(s.contains(t[0]));
        }
        assert(s =~= t);
    } else {
        assert(wanted(s[0]));
        assert(t.contains(s[0]));
        let j = choose|j: int| 0 <= j < t.len() && t[j] == s[0];
        assert(wanted(t[0]));
        assert(s.contains(t[0]));
        let k = choose|k: int| 0 <= k < s.len() && s[k] == t[0];
        if j > 0 {
            assert(precedes(notes, f, t[0], t[j]));
            if k > 0 {
                assert(precedes(notes, f, s[0], s[k]));
                if t[0] != s[0] {
                    lemma_precedes_total(notes, f, t[0], s[0]);
                } else {
                    lemma_precedes_irreflexive(notes, f, s[0]);
                }
            } else {
                lemma_precedes_irreflexive(notes, f, s[0]);
            }
        } else if k > 0 {
            assert(precedes(notes, f, s[0], s[k]));
            lemma_precedes_irreflexive(notes, f, s[0]);
        }
        assert(s[0] == t[0]);
        let first = s[0];
        let rest = |x: int| wanted(x) && x != first;
        let s2 = s.drop_first();
        let t2 = t.drop_first();
        assert forall|i: int| 0 <= i < s2.len() implies 0 <= #[trigger] s2[i] < notes.len() && rest(s2[i]) by {
            assert(s2[i] == s[i + 1]);
            assert(precedes(notes, f, s[0], s[i + 1]));
            lemma_precedes_irreflexive(notes, f, s[0]);
        }
        assert forall|i: int| 0 <= i < t2.len() implies 0 <= #[trigger] t2[i] < notes.len() && rest(t2[i]) by {
            assert(t2[i] == t[i + 1]);
            assert(precedes(notes, f, t[0], t[i + 1]));
            lemma_precedes_irreflexive(notes, f, t[0]);
        }
        assert forall|x: int| 0 <= x < notes.len() && #[trigger] rest(x) implies s2.contains(x) by {
            assert(wanted(x));
            assert(s.contains(x));
            let m = choose|m: int| 0 <= m < s.len() && s[m] == x;
            assert(s2[m - 1] == x);
        }
        assert forall|x: int| 0 <= x < notes.len() && #[trigger] rest(x) implies t2.contains(x) by {
            assert(wanted(x));
            assert(t.contains(x));
            let m = choose|m: int| 0 <= m < t.len() && t[m] == x;
            assert(t2[m - 1] == x);
        }
        assert forall|a: int, b: int| 0 <= a < b < s2.len() implies precedes(notes, f, #[trigger] s2[a], #[trigger] s2[b]) by {
            assert(s2[a] == s[a + 1] && s2[b] == s[b + 1]);
        }
        assert forall|a: int, b: int| 0 <= a < b < t2.len() implies precedes(notes, f, #[trigger] t2[a], #[trigger] t2[b]) by {
            assert(t2[a] == t[a + 1] && t2[b] == t[b + 1]);
        }
        lemma_sorted_selection_unique(notes, f, rest, s2, t2);
        assert(s =~= seq![first] + s2);
        assert(t =~= seq![first] + t2);
    }
}

/// The variables a note preview sees: `ID` and `Body`, then every
/// frontmatter field, which takes precedence.
pub open spec fn preview_values(note: NoteFacts) -> Map<Seq<char>, Seq<char>> {
    map!["ID"@ => note.id@, "Body"@ => note.body@].union_prefer_right(note.fields.view())
}

/// Render a view's preview template for a note.
pub fn render_preview(template: &str, note: &NoteFacts) -> (result: String)
    requires
        note.fields.wf(),
    ensures
        result@ == render_spec(template@, preview_values(*note)),
{
    let mut values = TextMap::new();
    values.insert("ID".to_owned(), note.id.clone());
    values.insert("Body".to_owned(), note.body.clone());
    let ghost base = map!["ID"@ => note.id@, "Body"@ => note.body@];
    assert(values.view() =~= base);
    let ghost fields = note.fields.view();
    proof {
        note.fields.lemma_entries();
    }
    let mut i: usize = 0;
    while i < note.fields.len()
        invariant
            note.fields.wf(),
            values.wf(),
            fields == note.fields.view(),
            i <= note.fields.key_seq().len(),
            note.fields.key_seq().len() == note.fields.value_seq().len(),
            note.fields.key_seq().to_set() == fields.dom(),
            forall|j: int|
                0 <= j < note.fields.key_seq().len() ==> #[trigger] fields[note.fields.key_seq()[j]]
                    == note.fields.value_seq()[j],
            values.view() == base.union_prefer_right(
                fields.restrict(note.fields.key_seq().take(i as int).to_set()),
            ),
        decreases note.fields.key_seq().len() - i,
    {
        let key = note.fields.key_at(i).clone();
        let value = note.fields.value_at(i).clone();
        let ghost before = values.view();
        let ghost k = note.fields.key_seq()[i as int];
        values.insert(key, value);
        proof {
            assert(note.fields.key_seq().take(i + 1).to_set() =~= note.fields.key_seq().take(i as int).to_set().insert(k)) by {
                assert(note.fields.key_seq().take(i + 1) =~= note.fields.key_seq().take(i as int).push(k));
                note.fields.key_seq().take(i as int).lemma_push_to_set_commute(k);
            }
            assert(fields.dom().contains(k)) by {
                assert(note.fields.key_seq().to_set().contains(k));
            }
            assert(values.view() =~= base.union_prefer_right(
                fields.restrict(note.fields.key_seq().take(i + 1).to_set()),
            ));
        }
        i = i + 1;
    }
    proof {
        assert(note.fields.key_seq().take(i as int) =~= note.fields.key_seq());
        assert(fields.restrict(note.fields.key_seq().to_set()) =~= fields);
    }
    render_variables(template, &values)
}

/// The year a sort field's value starts with: its first four characters,
/// when they are ASCII digits.
pub open spec fn sort_year_spec(value: Seq<char>) -> Option<Seq<char>> {
    if value.len() >= 4 && forall|i: int| 0 <= i < 4 ==> '0' <= #[trigger] value[i] <= '9' {
        Some(value.take(4))
    } else {
        None
    }
}

/// The four-digit year a note's sort field begins with, by which clients
/// group notes; notes without one are grouped as undated.
pub fn sort_year(note: &NoteFacts, sort_field: &str) -> (result: Option<String>)
    requires
        note.fields.wf(),
    ensures
        match sort_year_spec(field_spec(*note, sort_field@)) {
            Some(y) => result matches Some(r) && r@ == y,
            None => result is None,
        },
{
    let value = field(note, sort_field);
    let chars = chars_of(value.as_str());
    if chars.len() < 4 {
        return None;
    }
    let mut i: usize = 0;
    while i < 4
        invariant
            i <= 4 <= chars@.len(),
            chars@ == field_spec(*note, sort_field@),
            forall|j: int| 0 <= j < i ==> '0' <= #[trigger] chars@[j] <= '9',
        decreases 4 - i,
    {
        if !('0' <= chars[i] && chars[i] <= '9') {
            assert(!('0' <= chars@[i as int] <= '9'));
            return None;
        }
        i = i + 1;
    }
    let year = string_range(chars.as_slice(), 0, 4);
    assert(chars@.subrange(0, 4) =~= chars@.take(4));
    Some(year)
}

/// The tags written as comma-separated text: each piece trimmed, empty
/// pieces dropped.
pub open spec fn text_tags(text: Seq<char>) -> Set<Seq<char>> {
    Set::new(
        |t: Seq<char>|
            t.len() > 0 && exists|i: int|
                0 <= i < split_spec(text, ',').len() && trim_spec(#[trigger] split_spec(text, ',')[i])
                    == t,
    )
}

/// The tag set of a list of tags.
pub fn tags_from_items(items: &Vec<String>) -> (result: Vec<String>)
    ensures
        strictly_sorted(string_views(result@)),
        string_views(result@).to_set() == string_views(items@).to_set(),
{
    let mut result: Vec<String> = Vec::new();
    let mut i: usize = 0;
    proof {
        assert(string_views(result@).to_set() =~= string_views(items@.take(0)).to_set());
    }
    while i < items.len()
        invariant
            i <= items@.len(),
            strictly_sorted(string_views(result@)),
            string_views(result@).to_set() == string_views(items@.take(i as int)).to_set(),
        decreases items@.len() - i,
    {
        let item = items[i].clone();
        insert_sorted(&mut result, item);
        proof {
            assert(string_views(items@.take(i + 1)) =~= string_views(items@.take(i as int)).push(items@[i as int]@));
            string_views(items@.take(i as int)).lemma_push_to_set_commute(items@[i as int]@);
        }
        i = i + 1;
    }
    proof {
        assert(items@.take(i as int) =~= items@);
    }
    result
}

/// The tag set of comma-separated text.
pub fn tags_from_text(text: &str) -> (result: Vec<String>)
    ensures
        strictly_sorted(string_views(result@)),
        string_views(result@).to_set() == text_tags(text@),
{
    let pieces = split_char(text, ',');
    let ghost parts = split_spec(text@, ',');
    let mut result: Vec<String> = Vec::new();
    let mut i: usize = 0;
    while i < pieces.len()
        invariant
            i <= pieces@.len(),
            string_views(pieces@) == parts,
            parts == split_spec(text@, ','),
            strictly_sorted(string_views(result@)),
            forall|t: Seq<char>| #[trigger] string_views(result@).to_set().contains(t) <==> (t.len() > 0 && exists|j: int| 0 <= j < i && trim_spec(#[trigger] parts[j]) == t),
        decreases pieces@.len() - i,
    {
        let tag = trim(pieces[i].as_str());
        let ghost before = string_views(result@).to_set();
        assert(parts[i as int] == pieces@[i as int]@);
        if !tag.as_str().is_empty() {
            let ghost t0 = tag@;
            insert_sorted(&mut result, tag);
            proof {
                assert forall|t: Seq<char>| #[trigger] string_views(result@).to_set().contains(t) <==> (t.len() > 0 && exists|j: int| 0 <= j < i + 1 && trim_spec(#[trigger] parts[j]) == t) by {
                    if t == t0 {
                        assert(trim_spec(parts[i as int]) == t);
                    }
                    if t.len() > 0 && exists|j: int| 0 <= j < i + 1 && trim_spec(#[trigger] parts[j]) == t {
                        let j = choose|j: int| 0 <= j < i + 1 && trim_spec(#[trigger] parts[j]) == t;
                        if j < i {
                            assert(before.contains(t));
                        }
                    }
                }
            }
        } else {
            proof {
                assert forall|t: Seq<char>| #[trigger] string_views(result@).to_set().contains(t) <==> (t.len() > 0 && exists|j: int| 0 <= j < i + 1 && trim_spec(#[trigger] parts[j]) == t) by {
                    if t.len() > 0 && exists|j: int| 0 <= j < i + 1 && trim_spec(#[trigger] parts[j]) == t {
                        let j = choose|j: int| 0 <= j < i + 1 && trim_spec(#[trigger] parts[j]) == t;
                        if j == i {
                            assert(t == tag@);
                        }
                    }
                }
            }
        }
        i = i + 1;
    }
    proof {
        assert(string_views(result@).to_set() =~= text_tags(text@));
    }
    result
}

/// A tag set with `tag` added.
pub fn with_tag(tags: Vec<String>, tag: String) -> (result: Vec<String>)
    requires
        strictly_sorted(string_views(tags@)),
    ensures
        strictly_sorted(string_views(result@)),
        string_views(result@).to_set() == string_views(tags@).to_set().insert(tag@),
{
    let mut result = tags;
    insert_sorted(&mut result, tag);
    result
}

/// A tag set with `tag` removed.
pub fn without_tag(tags: Vec<String>, tag: &str) -> (result: Vec<String>)
    requires
        strictly_sorted(string_views(tags@)),
    ensures
        strictly_sorted(string_views(result@)),
        string_views(result@).to_set() == string_views(tags@).to_set().remove(tag@),
{
    let ghost old_views = string_views(tags@);
    let mut result = tags;
    match find_string(&result, tag) {
        Some(i) => {
            let ghost before = string_views(result@);
            result.remove(i);
            proof {
                assert(string_views(result@) =~= before.remove(i as int));
                lemma_sorted_no_duplicates(before);
                assert forall|a: int, b: int| 0 <= a < b < string_views(result@).len() implies lex_order(#[trigger] string_views(result@)[a], #[trigger] string_views(result@)[b]) < 0 by {
                    let a0 = if a < i { a } else { a + 1 };
                    let b0 = if b < i { b } else { b + 1 };
                    assert(string_views(result@)[a] == before[a0]);
                    assert(string_views(result@)[b] == before[b0]);
                }
                assert forall|t: Seq<char>| #[trigger] string_views(result@).to_set().contains(t) <==> before.to_set().remove(tag@).contains(t) by {
                    if before.to_set().remove(tag@).contains(t) {
                        let k = choose|k: int| 0 <= k < before.len() && before[k] == t;
                        assert(k != i);
                        if k < i {
                            assert(string_views(result@)[k] == t);
                        } else {
                            assert(string_views(result@)[k - 1] == t);
                        }
                    }
                    if string_views(result@).to_set().contains(t) {
                        let k = choose|k: int| 0 <= k < string_views(result@).len() && string_views(result@)[k] == t;
                        let k0 = if k < i { k } else { k + 1 };
                        assert(before[k0] == t);
                        if t == tag@ {
                            assert(before[i as int] == tag@);
                            assert(k0 != i);
                        }
                    }
                }
                assert(string_views(result@).to_set() =~= before.to_set().remove(tag@));
            }
        },
        None => {
            proof {
                assert(string_views(result@).to_set() =~= string_views(result@).to_set().remove(tag@));
            }
        },
    }
    result
}

/// The name `Debug` gives a capability.
pub open spec fn capability_name(c: Capability) -> Seq<char> {
    match c {
        Capability::CreateNote => "CreateNote"@,
        Capability::MutateNote => "MutateNote"@,
        Capability::Network => "Network"@,
        Capability::ReadSecret => "ReadSecret"@,
    }
}

/// The message that describes a behavior error.
pub open spec fn behavior_message(e: BehaviorErrorView) -> Seq<char> {
    match e {
        BehaviorErrorView::UnsupportedSchema(v) => "unsupported behavior schema "@ + decimal_spec(v as nat),
        BehaviorErrorView::Duplicate { kind, id } => "duplicate "@ + kind + " identifier: "@ + id,
        BehaviorErrorView::UnknownView(v) => "unknown view: "@ + v,
        BehaviorErrorView::UnknownSubview(v) => "unknown subview: "@ + v,
        BehaviorErrorView::UnknownAction(v) => "unknown action: "@ + v,
        BehaviorErrorView::ActionUnavailable(v) => "action is unavailable for this note: "@ + v,
        BehaviorErrorView::CapabilityDenied { action, capability } => "action "@ + action
            + " lacks capability grant "@ + capability_name(capability),
        BehaviorErrorView::InvalidQueryLimit => "query limit must be between 1 and 500"@,
    }
}

impl BehaviorError {
    /// The message that describes the error.
    pub fn message(&self) -> (result: String)
        ensures
            result@ == behavior_message(self.view()),
    {
        let mut out = String::new();
        match self {
            BehaviorError::UnsupportedSchema(v) => {
                push_str(&mut out, "unsupported behavior schema ");
                let digits = decimal(*v as u64);
                push_str(&mut out, digits.as_str());
            },
            BehaviorError::Duplicate { kind, id } => {
                push_str(&mut out, "duplicate ");
                push_str(&mut out, kind);
                push_str(&mut out, " identifier: ");
                push_str(&mut out, id.as_str());
            },
            BehaviorError::UnknownView(v) => {
                push_str(&mut out, "unknown view: ");
                push_str(&mut out, v.as_str());
            },
            BehaviorError::UnknownSubview(v) => {
                push_str(&mut out, "unknown subview: ");
                push_str(&mut out, v.as_str());
            },
            BehaviorError::UnknownAction(v) => {
                push_str(&mut out, "unknown action: ");
                push_str(&mut out, v.as_str());
            },
            BehaviorError::ActionUnavailable(v) => {
                push_str(&mut out, "action is unavailable for this note: ");
                push_str(&mut out, v.as_str());
            },
            BehaviorError::CapabilityDenied { action, capability } => {
                push_str(&mut out, "action ");
                push_str(&mut out, action.as_str());
                push_str(&mut out, " lacks capability grant ");
                match capability {
                    Capability::CreateNote => push_str(&mut out, "CreateNote"),
                    Capability::MutateNote => push_str(&mut out, "MutateNote"),
                    Capability::Network => push_str(&mut out, "Network"),
                    Capability::ReadSecret => push_str(&mut out, "ReadSecret"),
                }
            },
            BehaviorError::InvalidQueryLimit => {
                push_str(&mut out, "query limit must be between 1 and 500");
            },
        }
        proof {
            assert(out@ =~= behavior_message(self.view()));
        }
        out
    }
}

/// The tag set of a note's frontmatter: the text items of its `tags` list,
/// or the pieces of its `tags` text.
pub open spec fn note_tag_set(m: Map<Seq<char>, FrontmatterView>) -> Set<Seq<char>> {
    if m.contains_key("tags"@) {
        match m["tags"@] {
            FrontmatterView::Sequence(items) => text_items(items).to_set(),
            FrontmatterView::Text(t) => text_tags(t),
            _ => Set::empty(),
        }
    } else {
        Set::empty()
    }
}

/// A tag set in ascending order.
pub open spec fn tag_list(tags: Set<Seq<char>>) -> Seq<Seq<char>> {
    choose|l: Seq<Seq<char>>| strictly_sorted(l) && l.to_set() == tags
}

/// Texts as frontmatter values.
pub open spec fn text_views(texts: Seq<Seq<char>>) -> Seq<FrontmatterView> {
    texts.map_values(|t: Seq<char>| FrontmatterView::Text(t))
}

/// The `tags` value that holds a tag set: its tags as a list, in ascending
/// order.
pub open spec fn tags_value(tags: Set<Seq<char>>) -> FrontmatterView {
    FrontmatterView::Sequence(text_views(tag_list(tags)))
}

/// The frontmatter and body of a note after one effect, at time `now`.
pub open spec fn effect_result(
    m: Map<Seq<char>, FrontmatterView>,
    body: Seq<char>,
    effect: EffectView,
    now: Seq<char>,
) -> (Map<Seq<char>, FrontmatterView>, Seq<char>) {
    match effect {
        EffectView::AddTag(t) => (m.insert("tags"@, tags_value(note_tag_set(m).insert(t))), body),
        EffectView::RemoveTag(t) => (m.insert("tags"@, tags_value(note_tag_set(m).remove(t))), body),
        EffectView::SetField(f, v) => (m.insert(f, v), body),
        EffectView::SetFieldNow(f) => (m.insert(f, FrontmatterView::Text(now)), body),
        EffectView::AppendBody(t) => (m, body + t),
    }
}

/// The frontmatter and body of a note after effects, in order.
pub open spec fn effects_result(
    m: Map<Seq<char>, FrontmatterView>,
    body: Seq<char>,
    effects: Seq<EffectView>,
    now: Seq<char>,
) -> (Map<Seq<char>, FrontmatterView>, Seq<char>)
    decreases effects.len(),
{
    if effects.len() == 0 {
        (m, body)
    } else {
        let before = effects_result(m, body, effects.drop_last(), now);
        effect_result(before.0, before.1, effects.last(), now)
    }
}

/// A strictly sorted list is the ascending list of its elements.
proof fn lemma_tag_list(l: Seq<Seq<char>>)
    requires
        strictly_sorted(l),
    ensures
        tag_list(l.to_set()) == l,
{
    let chosen = tag_list(l.to_set());
    assert(strictly_sorted(chosen) && chosen.to_set() == l.to_set());
    crate::text_map::lemma_sorted_sequences_unique(l, chosen);
}

/// The text items of texts made values are the texts.
proof fn lemma_text_items_of_texts(texts: Seq<Seq<char>>)
    ensures
        text_items(text_views(texts)) == texts,
    decreases texts.len(),
{
    if texts.len() > 0 {
        assert(text_views(texts).drop_first() =~= text_views(texts.drop_first()));
        lemma_text_items_of_texts(texts.drop_first());
        assert(texts =~= seq![texts[0]] + texts.drop_first());
    }
}

/// The tag set of some frontmatter, in ascending order.
pub fn frontmatter_tag_list(frontmatter: &Vec<(String, FrontmatterValue)>) -> (result: Vec<String>)
    requires
        keys_ordered(frontmatter@),
    ensures
        strictly_sorted(string_views(result@)),
        string_views(result@).to_set() == note_tag_set(entries_map(entries_view(frontmatter@))),
{
    proof {
        reveal_strlit("tags");
        lemma_entries_view_index(frontmatter@);
        lemma_sorted_no_duplicates(entry_keys(entries_view(frontmatter@)));
        lemma_first_entry_map(entries_view(frontmatter@), "tags"@);
    }
    match find_entry(frontmatter, "tags") {
        Some(k) => match &frontmatter[k].1 {
            FrontmatterValue::Sequence(_) => {
                let texts = crate::frontmatter::tags(frontmatter);
                let mut owned: Vec<String> = Vec::new();
                let mut i: usize = 0;
                while i < texts.len()
                    invariant
                        i <= texts@.len(),
                        owned@.len() == i,
                        string_views(owned@) == texts@.map_values(|t: &str| t@).take(i as int),
                    decreases texts@.len() - i,
                {
                    owned.push(texts[i].to_owned());
                    i = i + 1;
                    assert(string_views(owned@) =~= texts@.map_values(|t: &str| t@).take(i as int));
                }
                assert(texts@.map_values(|t: &str| t@).take(i as int) =~= texts@.map_values(|t: &str| t@));
                tags_from_items(&owned)
            },
            FrontmatterValue::String(t) => tags_from_text(t.as_str()),
            _ => {
                let empty: Vec<String> = Vec::new();
                assert(string_views(empty@).to_set() =~= Set::<Seq<char>>::empty());
                empty
            },
        },
        None => {
            let empty: Vec<String> = Vec::new();
            assert(string_views(empty@).to_set() =~= Set::<Seq<char>>::empty());
            empty
        },
    }
}

/// Store a tag list under `tags`.
fn set_tags(frontmatter: &mut Vec<(String, FrontmatterValue)>, tags: Vec<String>)
    requires
        keys_ordered(old(frontmatter)@),
    ensures
        keys_ordered(final(frontmatter)@),
        entries_map(entries_view(final(frontmatter)@)) == entries_map(entries_view(old(frontmatter)@)).insert(
            "tags"@,
            FrontmatterView::Sequence(text_views(string_views(tags@))),
        ),
{
    proof {
        reveal_strlit("tags");
    }
    let mut values: Vec<FrontmatterValue> = Vec::new();
    let mut i: usize = 0;
    while i < tags.len()
        invariant
            i <= tags@.len(),
            values@.len() == i,
            forall|j: int| 0 <= j < i ==> (#[trigger] values@[j]).view() == FrontmatterView::Text(tags@[j]@),
        decreases tags@.len() - i,
    {
        values.push(FrontmatterValue::String(tags[i].clone()));
        i = i + 1;
    }
    proof {
        lemma_values_view_index(values@);
        assert forall|j: int| 0 <= j < values@.len() implies values_view(values@)[j] == text_views(string_views(tags@))[j] by {
            assert(values@[j].view() == FrontmatterView::Text(tags@[j]@));
        }
        assert(values_view(values@) =~= text_views(string_views(tags@)));
    }
    set_entry(frontmatter, "tags".to_owned(), FrontmatterValue::Sequence(values));
}

/// Apply one effect of an action to a note at time `now`.
pub fn apply_effect(note: &mut Note, effect: &ActionEffect, now: &str)
    requires
        keys_ordered(old(note).frontmatter@),
    ensures
        keys_ordered(final(note).frontmatter@),
        final(note).id == old(note).id,
        final(note).path == old(note).path,
        (entries_map(entries_view(final(note).frontmatter@)), final(note).body@) == effect_result(
            entries_map(entries_view(old(note).frontmatter@)),
            old(note).body@,
            effect.view(),
            now@,
        ),
{
    match effect {
        ActionEffect::AddTag { tag } => {
            let current = frontmatter_tag_list(&note.frontmatter);
            let updated = with_tag(current, tag.clone());
            proof {
                lemma_tag_list(string_views(updated@));
            }
            set_tags(&mut note.frontmatter, updated);
        },
        ActionEffect::RemoveTag { tag } => {
            let current = frontmatter_tag_list(&note.frontmatter);
            let updated = without_tag(current, tag.as_str());
            proof {
                lemma_tag_list(string_views(updated@));
            }
            set_tags(&mut note.frontmatter, updated);
        },
        ActionEffect::SetField { field, value } => {
            set_entry(&mut note.frontmatter, field.clone(), value.copied());
        },
        ActionEffect::SetFieldNow { field } => {
            set_entry(&mut note.frontmatter, field.clone(), FrontmatterValue::String(now.to_owned()));
        },
        ActionEffect::AppendBody { text } => {
            crate::text::push_str(&mut note.body, text.as_str());
        },
    }
}

impl WorkspaceBehavior {
    /// Apply the action named `id` to `note`, whose facts the rules read, at
    /// time `now`; a note the action is not offered for, or whose
    /// capabilities are not granted, is left unchanged.
    pub fn apply_action(&self, facts: &NoteFacts, note: &mut Note, id: &str, now: &str) -> (result: Result<(), BehaviorError>)
        requires
            facts.fields.wf(),
            keys_ordered(old(note).frontmatter@),
        ensures
            match action_outcome(*self, Some(*facts), id@) {
                Ok(k) => result is Ok && keys_ordered(final(note).frontmatter@)
                    && final(note).id == old(note).id && final(note).path == old(note).path
                    && (entries_map(entries_view(final(note).frontmatter@)), final(note).body@) == effects_result(
                        entries_map(entries_view(old(note).frontmatter@)),
                        old(note).body@,
                        effect_views(self.actions@[k].effects@),
                        now@,
                    ),
                Err(e) => result matches Err(error) && error.view() == e && *final(note) == *old(note),
            },
    {
        let action = self.action(Some(facts), id)?;
        let ghost views = effect_views(action.effects@);
        let ghost start_map = entries_map(entries_view(note.frontmatter@));
        let ghost start_body = note.body@;
        let ghost start_id = note.id;
        let ghost start_path = note.path;
        let mut i: usize = 0;
        proof {
            assert(views.take(0) =~= Seq::<EffectView>::empty());
        }
        while i < action.effects.len()
            invariant
                i <= action.effects@.len(),
                views == effect_views(action.effects@),
                keys_ordered(note.frontmatter@),
                note.id == start_id,
                note.path == start_path,
                (entries_map(entries_view(note.frontmatter@)), note.body@) == effects_result(start_map, start_body, views.take(i as int), now@),
            decreases action.effects@.len() - i,
        {
            apply_effect(note, &action.effects[i], now);
            proof {
                assert(views.take(i + 1).drop_last() =~= views.take(i as int));
                assert(views.take(i + 1).last() == action.effects@[i as int].view());
            }
            i = i + 1;
        }
        proof {
            assert(views.take(i as int) =~= views);
        }
        Ok(())
    }
}

} // verus!
