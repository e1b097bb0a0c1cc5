//! The legacy Fennel and Lua configuration, which workspaces must migrate away from.

use vstd::prelude::*;

use crate::behavior::{lemma_predicate_views_push, predicate_views, Predicate, PredicateView};
use crate::fennel::{
    debug_spec, debug_text, forms_view, lemma_forms_view_index, lemma_pairs_view_index,
    pairs_view, Form, FormView,
};
use crate::behavior::{decimal, decimal_spec, SubviewDescriptor, SubviewView, ViewDescriptor, ViewView};
use crate::behavior::{Capability, BEHAVIOR_SCHEMA, DEFAULT_QUERY_LIMIT};
use crate::behavior_rules::{
    behavior_message, duplicate_error, effect_views, grant_actions, subview_ids, subviews_error,
    validation_error, view_ids, action_ids, template_ids, has_view, ActionDescriptor,
    ActionEffect, BehaviorErrorView, CapabilityGrant, EffectView, WorkspaceBehavior,
};
use crate::fennel::{read, read_spec};
use crate::text::{insert_sorted, string_views, strictly_sorted};
use crate::markdown::{lowercase, lowercase_spec};
use crate::paths::{extension, extension_spec};
use crate::domain::{FrontmatterValue, FrontmatterView};
use crate::text::{
    ascii_alnum, is_ascii_alnum, chars_of, eq_ignore_ascii_case, eq_ignore_ascii_case_spec, eq_str, is_prefix, push_str,
    starts_with_str, string_range,
};

verus! {

/// Why legacy configuration could not be migrated.
#[derive(Clone, Debug, PartialEq, Eq)]
pub enum MigrationError {
    Syntax { offset: usize, message: String },
    Unsupported { location: String, construct: String },
}

/// What a legacy module is told to become.
pub const LEGACY_MODULE_ADVICE: &'static str = "legacy modules are not part of the documented portable subset; rewrite this module as a declarative modules/**/*.scm descriptor";

/// Whether `path` names a legacy Lua or Fennel module.
pub open spec fn is_legacy_module(path: Seq<char>) -> bool {
    match extension_spec(path) {
        Some(ext) => eq_ignore_ascii_case_spec(ext, "lua"@) || eq_ignore_ascii_case_spec(ext, "fnl"@),
        None => false,
    }
}

/// A diagnostic for a legacy module, or `None` for any other path.
pub fn diagnose_legacy_module(path: &str) -> (result: Option<MigrationError>)
    ensures
        result is Some <==> is_legacy_module(path@),
        result matches Some(e) ==> e matches MigrationError::Unsupported { location, construct }
            && location@ == path@ && construct@ == LEGACY_MODULE_ADVICE@,
{
    let legacy = match extension(path) {
        Some(ext) => {
            let chars = chars_of(ext.as_str());
            eq_ignore_ascii_case(chars.as_slice(), "lua") || eq_ignore_ascii_case(chars.as_slice(), "fnl")
        },
        None => false,
    };
    if legacy {
        Some(
            MigrationError::Unsupported {
                location: path.to_owned(),
                construct: LEGACY_MODULE_ADVICE.to_owned(),
            },
        )
    } else {
        None
    }
}

/// The abstract value of a `MigrationError`.
pub enum MigrationErrorView {
    Syntax { offset: int, message: Seq<char> },
    Unsupported { location: Seq<char>, construct: Seq<char> },
}

impl MigrationError {
    pub open spec fn view(self) -> MigrationErrorView {
        match self {
            MigrationError::Syntax { offset, message } => MigrationErrorView::Syntax {
                offset: offset as int,
                message: message@,
            },
            MigrationError::Unsupported { location, construct } => MigrationErrorView::Unsupported {
                location: location@,
                construct: construct@,
            },
        }
    }
}

/// A form that the documented subset does not allow at `location`.
pub open spec fn unsupported_spec(location: Seq<char>, f: FormView) -> MigrationErrorView {
    MigrationErrorView::Unsupported { location, construct: debug_spec(f) }
}

/// The text of a symbol form.
pub open spec fn symbol_of(f: FormView) -> Option<Seq<char>> {
    match f {
        FormView::Symbol(v) => Some(v),
        _ => None,
    }
}

/// The text of the symbol at position `i`, if a symbol stands there.
pub open spec fn symbol_at(items: Seq<FormView>, i: int) -> Option<Seq<char>> {
    if 0 <= i < items.len() {
        symbol_of(items[i])
    } else {
        None
    }
}

/// A string form's text.
pub open spec fn string_spec(f: FormView, location: Seq<char>) -> Result<Seq<char>, MigrationErrorView> {
    match f {
        FormView::Text(v) => Ok(v),
        _ => Err(unsupported_spec(location, f)),
    }
}

/// A keyword's name: a symbol starting with `:`, without it.
pub open spec fn keyword_spec(f: FormView, location: Seq<char>) -> Result<Seq<char>, MigrationErrorView> {
    match f {
        FormView::Symbol(v) => if v.len() > 0 && v[0] == ':' {
            Ok(v.drop_first())
        } else {
            Err(unsupported_spec(location, f))
        },
        _ => Err(unsupported_spec(location, f)),
    }
}

/// A boolean symbol's value.
pub open spec fn boolean_spec(f: FormView, location: Seq<char>) -> Result<bool, MigrationErrorView> {
    match f {
        FormView::Symbol(v) => if v == "true"@ {
            Ok(true)
        } else if v == "false"@ {
            Ok(false)
        } else {
            Err(unsupported_spec(location, f))
        },
        _ => Err(unsupported_spec(location, f)),
    }
}

/// The body of a one-argument-vector lambda `(fn [..] body)`.
pub open spec fn lambda_body_spec(f: FormView, location: Seq<char>) -> Result<FormView, MigrationErrorView> {
    match f {
        FormView::List(items) => if symbol_at(items, 0) == Some("fn"@) && items.len() == 3
            && items[1] is Vector {
            Ok(items[2])
        } else {
            Err(unsupported_spec(location, f))
        },
        _ => Err(unsupported_spec(location, f)),
    }
}

/// The predicate a legacy expression stands for.
pub open spec fn predicate_spec(f: FormView, location: Seq<char>) -> Result<PredicateView, MigrationErrorView>
    decreases f,
{
    match f {
        FormView::Symbol(v) => if v == "true"@ {
            Ok(PredicateView::Always)
        } else {
            Err(unsupported_spec(location, f))
        },
        FormView::List(values) => {
            if symbol_at(values, 0) == Some("has-tag"@) && values.len() == 3 {
                match string_spec(values[2], location) {
                    Ok(t) => Ok(PredicateView::HasTag(t)),
                    Err(e) => Err(e),
                }
            } else if symbol_at(values, 0) == Some("="@) && values.len() == 3 {
                if symbol_of(values[1]) matches Some(v) && is_prefix("note."@, v) {
                    match string_spec(values[2], location) {
                        Ok(t) => Ok(PredicateView::FieldEquals(symbol_of(values[1])->0.skip(5), t)),
                        Err(e) => Err(e),
                    }
                } else {
                    Err(unsupported_spec(location, values[1]))
                }
            } else if symbol_at(values, 0) == Some("not"@) && values.len() == 2 {
                match predicate_spec(values[1], location) {
                    Ok(p) => Ok(PredicateView::Not(Box::new(p))),
                    Err(e) => Err(e),
                }
            } else if symbol_at(values, 0) == Some("and"@) {
                match predicates_spec(values.drop_first(), location) {
                    Ok(ps) => Ok(PredicateView::All(ps)),
                    Err(e) => Err(e),
                }
            } else if symbol_at(values, 0) == Some("or"@) {
                match predicates_spec(values.drop_first(), location) {
                    Ok(ps) => Ok(PredicateView::Any(ps)),
                    Err(e) => Err(e),
                }
            } else {
                Err(unsupported_spec(location, f))
            }
        },
        _ => Err(unsupported_spec(location, f)),
    }
}

/// The predicates a list of legacy expressions stands for; the first error wins.
pub open spec fn predicates_spec(items: Seq<FormView>, location: Seq<char>) -> Result<Seq<PredicateView>, MigrationErrorView>
    decreases items,
{
    if items.len() == 0 {
        Ok(Seq::empty())
    } else {
        match predicate_spec(items[0], location) {
            Err(e) => Err(e),
            Ok(p) => match predicates_spec(items.drop_first(), location) {
                Ok(ps) => Ok(seq![p] + ps),
                Err(e) => Err(e),
            },
        }
    }
}

/// The predicate of a `(fn [note] ..)` lambda.
pub open spec fn lambda_predicate_spec(f: FormView, location: Seq<char>) -> Result<PredicateView, MigrationErrorView> {
    match lambda_body_spec(f, location) {
        Ok(body) => predicate_spec(body, location),
        Err(e) => Err(e),
    }
}

fn unsupported(location: &str, form: &Form) -> (result: MigrationError)
    ensures
        result.view() == unsupported_spec(location@, form.view()),
{
    MigrationError::Unsupported { location: location.to_owned(), construct: debug_text(form) }
}

/// Whether the symbol `word` stands at position `i` of `values`.
fn symbol_is(values: &Vec<Form>, i: usize, word: &str) -> (result: bool)
    ensures
        result == (symbol_at(forms_view(values@), i as int) == Some(word@)),
{
    proof {
        lemma_forms_view_index(values@);
    }
    if i >= values.len() {
        return false;
    }
    match &values[i] {
        Form::Symbol(v) => {
            let chars = chars_of(v.as_str());
            eq_str(chars.as_slice(), word)
        },
        _ => false,
    }
}

fn string_value(form: &Form, location: &str) -> (result: Result<String, MigrationError>)
    ensures
        match string_spec(form.view(), location@) {
            Ok(v) => result matches Ok(r) && r@ == v,
            Err(e) => result matches Err(r) && r.view() == e,
        },
{
    match form {
        Form::String(v) => Ok(v.clone()),
        _ => Err(unsupported(location, form)),
    }
}

fn keyword(form: &Form, location: &str) -> (result: Result<String, MigrationError>)
    ensures
        match keyword_spec(form.view(), location@) {
            Ok(v) => result matches Ok(r) && r@ == v,
            Err(e) => result matches Err(r) && r.view() == e,
        },
{
    match form {
        Form::Symbol(v) => {
            let chars = chars_of(v.as_str());
            if chars.len() > 0 && chars[0] == ':' {
                let name = string_range(chars.as_slice(), 1, chars.len());
                assert(name@ =~= v@.drop_first());
                Ok(name)
            } else {
                Err(unsupported(location, form))
            }
        },
        _ => Err(unsupported(location, form)),
    }
}

fn boolean(form: &Form, location: &str) -> (result: Result<bool, MigrationError>)
    ensures
        match boolean_spec(form.view(), location@) {
            Ok(v) => result == Ok::<bool, MigrationError>(v),
            Err(e) => result matches Err(r) && r.view() == e,
        },
{
    match form {
        Form::Symbol(v) => {
            let chars = chars_of(v.as_str());
            if eq_str(chars.as_slice(), "true") {
                Ok(true)
            } else if eq_str(chars.as_slice(), "false") {
                Ok(false)
            } else {
                Err(unsupported(location, form))
            }
        },
        _ => Err(unsupported(location, form)),
    }
}

fn lambda_body<'a>(form: &'a Form, location: &str) -> (result: Result<&'a Form, MigrationError>)
    ensures
        match lambda_body_spec(form.view(), location@) {
            Ok(b) => result matches Ok(r) && r.view() == b,
            Err(e) => result matches Err(r) && r.view() == e,
        },
{
    match form {
        Form::List(values) => {
            proof {
                lemma_forms_view_index(values@);
            }
            if symbol_is(values, 0, "fn") && values.len() == 3 {
                match &values[1] {
                    Form::Vector(_) => {
                        return Ok(&values[2]);
                    },
                    _ => {},
                }
            }
            Err(unsupported(location, form))
        },
        _ => Err(unsupported(location, form)),
    }
}

/// `location` followed by `suffix`.
fn concat(location: &str, suffix: &str) -> (result: String)
    ensures
        result@ == location@ + suffix@,
{
    let mut out = location.to_owned();
    push_str(&mut out, suffix);
    out
}

/// The predicate a legacy expression stands for.
fn predicate_expr(form: &Form, location: &str) -> (result: Result<Predicate, MigrationError>)
    ensures
        match predicate_spec(form.view(), location@) {
            Ok(p) => result matches Ok(r) && r.view() == p,
            Err(e) => result matches Err(r) && r.view() == e,
        },
    decreases form,
{
    match form {
        Form::Symbol(v) => {
            let chars = chars_of(v.as_str());
            if eq_str(chars.as_slice(), "true") {
                Ok(Predicate::Always)
            } else {
                Err(unsupported(location, form))
            }
        },
        Form::List(values) => {
            let ghost views = forms_view(values@);
            proof {
                lemma_forms_view_index(values@);
            }
            if symbol_is(values, 0, "has-tag") && values.len() == 3 {
                return match string_value(&values[2], location) {
                    Ok(tag) => Ok(Predicate::HasTag { tag }),
                    Err(e) => Err(e),
                };
            }
            if symbol_is(values, 0, "=") && values.len() == 3 {
                let field = match &values[1] {
                    Form::Symbol(v) => {
                        let chars = chars_of(v.as_str());
                        if starts_with_str(chars.as_slice(), "note.") {
                            proof {
                                reveal_strlit("note.");
                            }
                            let f = string_range(chars.as_slice(), 5, chars.len());
                            assert(f@ =~= v@.skip(5));
                            f
                        } else {
                            return Err(unsupported(location, &values[1]));
                        }
                    },
                    _ => {
                        return Err(unsupported(location, &values[1]));
                    },
                };
                return match string_value(&values[2], location) {
                    Ok(value) => Ok(Predicate::FieldEquals { field, value }),
                    Err(e) => Err(e),
                };
            }
            if symbol_is(values, 0, "not") && values.len() == 2 {
                proof {
                    assert(decreases_to!(*form => form->List_0));
                    assert(decreases_to!(*values => values@));
                    assert(decreases_to!(values@ => values@[1]));
                }
                return match predicate_expr(&values[1], location) {
                    Ok(p) => Ok(Predicate::Not { predicate: Box::new(p) }),
                    Err(e) => Err(e),
                };
            }
            let is_and = symbol_is(values, 0, "and");
            if is_and || symbol_is(values, 0, "or") {
                let mut predicates: Vec<Predicate> = Vec::new();
                let mut i: usize = 1;
                proof {
                    assert(views.drop_first() =~= views.skip(1));
                }
                while i < values.len()
                    invariant
                        1 <= i <= values@.len(),
                        views == forms_view(values@),
                        views.len() == values@.len(),
                        forall|j: int| 0 <= j < values@.len() ==> views[j] == (#[trigger] values@[j]).view(),
                        *form == Form::List(*values),
                        !(symbol_at(views, 0) == Some("has-tag"@) && views.len() == 3),
                        !(symbol_at(views, 0) == Some("="@) && views.len() == 3),
                        !(symbol_at(views, 0) == Some("not"@) && views.len() == 2),
                        is_and == (symbol_at(views, 0) == Some("and"@)),
                        is_and || symbol_at(views, 0) == Some("or"@),
                        predicates_spec(views.drop_first(), location@) == prepend_predicates(
                            predicate_views(predicates@),
                            predicates_spec(views.skip(i as int), location@),
                        ),
                    decreases values@.len() - i,
                {
                    proof {
                        assert(decreases_to!(*form => form->List_0));
                        assert(decreases_to!(*values => values@));
                        assert(decreases_to!(values@ => values@[i as int]));
                        assert(views.skip(i as int)[0] == views[i as int]);
                        assert(views.skip(i as int).drop_first() =~= views.skip(i + 1));
                    }
                    match predicate_expr(&values[i], location) {
                        Ok(p) => {
                            let ghost before = predicate_views(predicates@);
                            proof {
                                lemma_predicate_views_push(predicates@, p);
                            }
                            predicates.push(p);
                            proof {
                                match predicates_spec(views.skip(i + 1), location@) {
                                    Ok(ps) => {
                                        assert(before + (seq![p.view()] + ps) =~= before.push(p.view()) + ps);
                                    },
                                    Err(e) => {},
                                }
                            }
                        },
                        Err(e) => {
                            return Err(e);
                        },
                    }
                    i = i + 1;
                }
                proof {
                    assert(views.skip(i as int).len() == 0);
                    assert(predicate_views(predicates@) + Seq::<PredicateView>::empty() =~= predicate_views(predicates@));
                }
                if is_and {
                    return Ok(Predicate::All { predicates });
                } else {
                    return Ok(Predicate::Any { predicates });
                }
            }
            Err(unsupported(location, form))
        },
        _ => Err(unsupported(location, form)),
    }
}

/// `vs` before the predicates of a successful migration.
pub open spec fn prepend_predicates(
    vs: Seq<PredicateView>,
    r: Result<Seq<PredicateView>, MigrationErrorView>,
) -> Result<Seq<PredicateView>, MigrationErrorView> {
    match r {
        Ok(rest) => Ok(vs + rest),
        Err(e) => Err(e),
    }
}

/// The predicate of a `(fn [note] ..)` lambda.
fn lambda_predicate(form: &Form, location: &str) -> (result: Result<Predicate, MigrationError>)
    ensures
        match lambda_predicate_spec(form.view(), location@) {
            Ok(p) => result matches Ok(r) && r.view() == p,
            Err(e) => result matches Err(r) && r.view() == e,
        },
{
    match lambda_body(form, location) {
        Ok(body) => predicate_expr(body, location),
        Err(e) => Err(e),
    }
}

/// The pairs of a table form.
pub open spec fn table_spec(f: FormView, location: Seq<char>) -> Result<Seq<(FormView, FormView)>, MigrationErrorView> {
    match f {
        FormView::Table(pairs) => Ok(pairs),
        _ => Err(unsupported_spec(location, f)),
    }
}

/// The items of a vector form.
pub open spec fn vector_spec(f: FormView, location: Seq<char>) -> Result<Seq<FormView>, MigrationErrorView> {
    match f {
        FormView::Vector(items) => Ok(items),
        _ => Err(unsupported_spec(location, f)),
    }
}

/// The value under the first key `:key` of a table.
pub open spec fn lookup_spec(pairs: Seq<(FormView, FormView)>, key: Seq<char>) -> Option<FormView>
    decreases pairs.len(),
{
    if pairs.len() == 0 {
        None
    } else if symbol_of(pairs[0].0) == Some(seq![':'] + key) {
        Some(pairs[0].1)
    } else {
        lookup_spec(pairs.drop_first(), key)
    }
}

/// The value under `:key`, which must be present.
pub open spec fn get_spec(pairs: Seq<(FormView, FormView)>, key: Seq<char>, location: Seq<char>) -> Result<FormView, MigrationErrorView> {
    match lookup_spec(pairs, key) {
        Some(v) => Ok(v),
        None => Err(MigrationErrorView::Unsupported { location, construct: "missing required :"@ + key }),
    }
}

/// Where the value of `key` stands below `location`.
pub open spec fn field_location(location: Seq<char>, key: Seq<char>) -> Seq<char> {
    location + "."@ + key
}

/// An optional string under `:key`.
pub open spec fn opt_string_spec(pairs: Seq<(FormView, FormView)>, location: Seq<char>, key: Seq<char>) -> Result<Option<Seq<char>>, MigrationErrorView> {
    match lookup_spec(pairs, key) {
        None => Ok(None),
        Some(v) => match string_spec(v, field_location(location, key)) {
            Ok(t) => Ok(Some(t)),
            Err(e) => Err(e),
        },
    }
}

/// An optional boolean under `:key`.
pub open spec fn opt_bool_spec(pairs: Seq<(FormView, FormView)>, location: Seq<char>, key: Seq<char>) -> Result<Option<bool>, MigrationErrorView> {
    match lookup_spec(pairs, key) {
        None => Ok(None),
        Some(v) => match boolean_spec(v, field_location(location, key)) {
            Ok(b) => Ok(Some(b)),
            Err(e) => Err(e),
        },
    }
}

/// The tag effects of nested `(add-tag ..)` and `(remove-tag ..)` around
/// `note.tags`, innermost first.
pub open spec fn tag_effects_spec(f: FormView, location: Seq<char>) -> Result<Seq<EffectView>, MigrationErrorView>
    decreases f,
{
    match f {
        FormView::Symbol(v) => if v == "note.tags"@ {
            Ok(Seq::empty())
        } else {
            Err(unsupported_spec(location, f))
        },
        FormView::List(values) => if values.len() == 3 && (symbol_at(values, 0) == Some("add-tag"@)
            || symbol_at(values, 0) == Some("remove-tag"@)) {
            match tag_effects_spec(values[1], location) {
                Err(e) => Err(e),
                Ok(inner) => match string_spec(values[2], location) {
                    Err(e) => Err(e),
                    Ok(tag) => Ok(inner.push(if symbol_at(values, 0) == Some("add-tag"@) {
                        EffectView::AddTag(tag)
                    } else {
                        EffectView::RemoveTag(tag)
                    })),
                },
            }
        } else {
            Err(unsupported_spec(location, f))
        },
        _ => Err(unsupported_spec(location, f)),
    }
}

/// The effects of a `(fn [note] (assoc note :field value))` lambda.
pub open spec fn effects_spec(f: FormView, location: Seq<char>) -> Result<Seq<EffectView>, MigrationErrorView> {
    match lambda_body_spec(f, location) {
        Err(e) => Err(e),
        Ok(body) => match body {
            FormView::List(values) => if symbol_at(values, 0) != Some("assoc"@) || values.len() != 4
                || symbol_of(values[1]) != Some("note"@) {
                Err(unsupported_spec(location, body))
            } else {
                match keyword_spec(values[2], location) {
                    Err(e) => Err(e),
                    Ok(target) => if target == "tags"@ {
                        tag_effects_spec(values[3], location)
                    } else {
                        match string_spec(values[3], location) {
                            Ok(v) => Ok(seq![EffectView::SetField(target, FrontmatterView::Text(v))]),
                            Err(e) => Err(e),
                        }
                    },
                }
            },
            _ => Err(unsupported_spec(location, body)),
        },
    }
}

/// A name turned into an identifier: lowercased, every character other than
/// an ASCII letter or digit made `-`, and `-` trimmed from both ends.
pub open spec fn identifier_spec(name: Seq<char>) -> Seq<char> {
    trim_dashes(dash_map(lowercase_spec(name)))
}

/// Every character other than an ASCII letter or digit made `-`.
pub open spec fn dash_map(s: Seq<char>) -> Seq<char> {
    Seq::new(s.len(), |i: int| if is_ascii_alnum(s[i]) { s[i] } else { '-' })
}

/// `s` without leading and trailing `-`.
pub open spec fn trim_dashes(s: Seq<char>) -> Seq<char> {
    trim_dash_end(trim_dash_start(s))
}

pub open spec fn trim_dash_start(s: Seq<char>) -> Seq<char>
    decreases s.len(),
{
    if s.len() > 0 && s[0] == '-' {
        trim_dash_start(s.drop_first())
    } else {
        s
    }
}

pub open spec fn trim_dash_end(s: Seq<char>) -> Seq<char>
    decreases s.len(),
{
    if s.len() > 0 && s.last() == '-' {
        trim_dash_end(s.drop_last())
    } else {
        s
    }
}

/// A subview description.
pub open spec fn subview_spec(f: FormView, location: Seq<char>) -> Result<SubviewView, MigrationErrorView> {
    match table_spec(f, location) {
        Err(e) => Err(e),
        Ok(values) => match get_spec(values, "name"@, location) {
            Err(e) => Err(e),
            Ok(nf) => match string_spec(nf, field_location(location, "name"@)) {
                Err(e) => Err(e),
                Ok(name) => match get_spec(values, "when"@, location) {
                    Err(e) => Err(e),
                    Ok(w) => match lambda_predicate_spec(w, field_location(location, "when"@)) {
                        Err(e) => Err(e),
                        Ok(p) => Ok(SubviewView { id: identifier_spec(name), name, predicate: p }),
                    },
                },
            },
        },
    }
}

/// Where subview `i` of a view stands.
pub open spec fn subview_location(location: Seq<char>, i: nat) -> Seq<char> {
    location + ".subviews["@ + decimal_spec(i) + "]"@
}

/// The subviews `list[i..]` of a view.
pub open spec fn subview_list_spec(list: Seq<FormView>, location: Seq<char>, i: nat) -> Result<Seq<SubviewView>, MigrationErrorView>
    decreases list.len() - i,
{
    if i >= list.len() {
        Ok(Seq::empty())
    } else {
        match subview_spec(list[i as int], subview_location(location, i)) {
            Err(e) => Err(e),
            Ok(sv) => match subview_list_spec(list, location, i + 1) {
                Ok(rest) => Ok(seq![sv] + rest),
                Err(e) => Err(e),
            },
        }
    }
}

/// The subviews of a view description.
pub open spec fn subviews_spec(pairs: Seq<(FormView, FormView)>, location: Seq<char>) -> Result<Seq<SubviewView>, MigrationErrorView> {
    match lookup_spec(pairs, "subviews"@) {
        None => Ok(Seq::empty()),
        Some(items) => match vector_spec(items, field_location(location, "subviews"@)) {
            Err(e) => Err(e),
            Ok(list) => subview_list_spec(list, location, 0),
        },
    }
}

/// A view description named `id`.
pub open spec fn view_spec(id: Seq<char>, f: FormView) -> Result<ViewView, MigrationErrorView> {
    let location = "views."@ + id;
    match table_spec(f, location) {
        Err(e) => Err(e),
        Ok(values) => match get_spec(values, "name"@, location) {
            Err(e) => Err(e),
            Ok(nf) => match string_spec(nf, field_location(location, "name"@)) {
                Err(e) => Err(e),
                Ok(name) => match subviews_spec(values, location) {
                    Err(e) => Err(e),
                    Ok(subviews) => match opt_string_spec(values, location, "key"@) {
                        Err(e) => Err(e),
                        Ok(key) => match opt_bool_spec(values, location, "show-tags"@) {
                            Err(e) => Err(e),
                            Ok(show) => match opt_string_spec(values, location, "title-field"@) {
                                Err(e) => Err(e),
                                Ok(title) => match opt_string_spec(values, location, "subtitle-field"@) {
                                    Err(e) => Err(e),
                                    Ok(subtitle) => match opt_string_spec(values, location, "sort-field"@) {
                                        Err(e) => Err(e),
                                        Ok(sort) => match opt_string_spec(values, location, "sort-order"@) {
                                            Err(e) => Err(e),
                                            Ok(order) => match opt_string_spec(values, location, "stats-template"@) {
                                                Err(e) => Err(e),
                                                Ok(preview) => match get_spec(values, "when"@, location) {
                                                    Err(e) => Err(e),
                                                    Ok(w) => match lambda_predicate_spec(w, field_location(location, "when"@)) {
                                                        Err(e) => Err(e),
                                                        Ok(p) => Ok(ViewView {
                                                            id,
                                                            name,
                                                            key,
                                                            show_tags: show == Some(true),
                                                            title_field: match title {
                                                                Some(t) => t,
                                                                None => "title"@,
                                                            },
                                                            subtitle_field: subtitle,
                                                            sort_field: sort,
                                                            descending: order == Some("desc"@),
                                                            preview,
                                                            predicate: p,
                                                            subviews,
                                                        }),
                                                    },
                                                },
                                            },
                                        },
                                    },
                                },
                            },
                        },
                    },
                },
            },
        },
    }
}

/// A migrated view is descending exactly when its description gives
/// `:sort-order` as the string `"desc"`: another order, or none, gives an
/// ascending view.
pub proof fn lemma_view_descending(id: Seq<char>, pairs: Seq<(FormView, FormView)>)
    ensures
        view_spec(id, FormView::Table(pairs)) matches Ok(v) ==> (v.descending <==> lookup_spec(pairs, "sort-order"@)
            == Some(FormView::Text("desc"@))),
{
    let location = "views."@ + id;
    if view_spec(id, FormView::Table(pairs)) is Ok {
        let order = opt_string_spec(pairs, location, "sort-order"@);
        assert(order is Ok);
        assert(view_spec(id, FormView::Table(pairs))->Ok_0.descending == (order->Ok_0 == Some("desc"@)));
    }
}

/// The string form that gives an optional text.
pub open spec fn text_form(value: Option<Seq<char>>) -> Option<FormView> {
    match value {
        Some(t) => Some(FormView::Text(t)),
        None => None,
    }
}

/// A migrated view takes its fields from the description: its name from
/// `:name`, its key, sort field, subtitle field and preview from `:key`,
/// `:sort-field`, `:subtitle-field` and `:stats-template` where given, its
/// title field from `:title-field` or else `title`, and shows tags exactly
/// when `:show-tags` is `true`.
pub proof fn lemma_view_fields(id: Seq<char>, pairs: Seq<(FormView, FormView)>)
    ensures
        view_spec(id, FormView::Table(pairs)) matches Ok(v) ==> {
            &&& v.id == id
            &&& lookup_spec(pairs, "name"@) == Some(FormView::Text(v.name))
            &&& lookup_spec(pairs, "key"@) == text_form(v.key)
            &&& lookup_spec(pairs, "sort-field"@) == text_form(v.sort_field)
            &&& lookup_spec(pairs, "subtitle-field"@) == text_form(v.subtitle_field)
            &&& lookup_spec(pairs, "stats-template"@) == text_form(v.preview)
            &&& v.title_field == match lookup_spec(pairs, "title-field"@) {
                Some(FormView::Text(t)) => t,
                _ => "title"@,
            }
            &&& (v.show_tags <==> lookup_spec(pairs, "show-tags"@) == Some(FormView::Symbol("true"@)))
        },
{
}

/// The abstract value of a migrated action.
pub struct ActionView {
    pub id: Seq<char>,
    pub description: Seq<char>,
    pub predicate: PredicateView,
    pub effects: Seq<EffectView>,
}

/// An action description named `id`.
pub open spec fn action_spec(id: Seq<char>, f: FormView) -> Result<ActionView, MigrationErrorView> {
    let location = "actions."@ + id;
    match table_spec(f, location) {
        Err(e) => Err(e),
        Ok(values) => match get_spec(values, "description"@, location) {
            Err(e) => Err(e),
            Ok(df) => match string_spec(df, field_location(location, "description"@)) {
                Err(e) => Err(e),
                Ok(description) => match get_spec(values, "when"@, location) {
                    Err(e) => Err(e),
                    Ok(w) => match lambda_predicate_spec(w, field_location(location, "when"@)) {
                        Err(e) => Err(e),
                        Ok(p) => match get_spec(values, "run"@, location) {
                            Err(e) => Err(e),
                            Ok(r) => match effects_spec(r, field_location(location, "run"@)) {
                                Err(e) => Err(e),
                                Ok(effects) => Ok(ActionView { id, description, predicate: p, effects }),
                            },
                        },
                    },
                },
            },
        },
    }
}

fn table<'a>(form: &'a Form, location: &str) -> (result: Result<&'a Vec<(Form, Form)>, MigrationError>)
    ensures
        match table_spec(form.view(), location@) {
            Ok(pairs) => result matches Ok(r) && pairs_view(r@) == pairs,
            Err(e) => result matches Err(r) && r.view() == e,
        },
{
    match form {
        Form::Table(pairs) => Ok(pairs),
        _ => Err(unsupported(location, form)),
    }
}

fn vector<'a>(form: &'a Form, location: &str) -> (result: Result<&'a Vec<Form>, MigrationError>)
    ensures
        match vector_spec(form.view(), location@) {
            Ok(items) => result matches Ok(r) && forms_view(r@) == items,
            Err(e) => result matches Err(r) && r.view() == e,
        },
{
    match form {
        Form::Vector(items) => Ok(items),
        _ => Err(unsupported(location, form)),
    }
}

/// The value under the first key `:key`.
fn optional<'a>(pairs: &'a Vec<(Form, Form)>, key: &str) -> (result: Option<&'a Form>)
    ensures
        match lookup_spec(pairs_view(pairs@), key@) {
            Some(v) => result matches Some(r) && r.view() == v,
            None => result is None,
        },
{
    let ghost views = pairs_view(pairs@);
    proof {
        lemma_pairs_view_index(pairs@);
        assert(views.skip(0) =~= views);
    }
    let mut wanted = String::new();
    crate::text::push_char(&mut wanted, ':');
    push_str(&mut wanted, key);
    let mut i: usize = 0;
    while i < pairs.len()
        invariant
            i <= pairs@.len(),
            views == pairs_view(pairs@),
            views.len() == pairs@.len(),
            forall|j: int| 0 <= j < pairs@.len() ==> views[j] == ((#[trigger] pairs@[j]).0.view(), pairs@[j].1.view()),
            wanted@ == seq![':'] + key@,
            lookup_spec(views, key@) == lookup_spec(views.skip(i as int), key@),
        decreases pairs@.len() - i,
    {
        proof {
            assert(views.skip(i as int)[0] == views[i as int]);
            assert(views.skip(i as int).drop_first() =~= views.skip(i + 1));
        }
        let hit = match &pairs[i].0 {
            Form::Symbol(v) => {
                let chars = chars_of(v.as_str());
                eq_str(chars.as_slice(), wanted.as_str())
            },
            _ => false,
        };
        if hit {
            return Some(&pairs[i].1);
        }
        i = i + 1;
    }
    None
}

/// The value under `:key`, which must be present.
fn get<'a>(pairs: &'a Vec<(Form, Form)>, key: &str, location: &str) -> (result: Result<&'a Form, MigrationError>)
    ensures
        match get_spec(pairs_view(pairs@), key@, location@) {
            Ok(v) => result matches Ok(r) && r.view() == v,
            Err(e) => result matches Err(r) && r.view() == e,
        },
{
    match optional(pairs, key) {
        Some(v) => Ok(v),
        None => Err(MigrationError::Unsupported {
            location: location.to_owned(),
            construct: concat("missing required :", key),
        }),
    }
}

fn optional_string(pairs: &Vec<(Form, Form)>, location: &str, key: &str) -> (result: Result<Option<String>, MigrationError>)
    ensures
        match opt_string_spec(pairs_view(pairs@), location@, key@) {
            Ok(v) => result matches Ok(r) && match r {
                Some(t) => v == Some(t@),
                None => v is None,
            },
            Err(e) => result matches Err(r) && r.view() == e,
        },
{
    match optional(pairs, key) {
        None => Ok(None),
        Some(v) => {
            let at = field_at(location, key);
            match string_value(v, at.as_str()) {
                Ok(t) => Ok(Some(t)),
                Err(e) => Err(e),
            }
        },
    }
}

fn optional_bool(pairs: &Vec<(Form, Form)>, location: &str, key: &str) -> (result: Result<Option<bool>, MigrationError>)
    ensures
        match opt_bool_spec(pairs_view(pairs@), location@, key@) {
            Ok(v) => result == Ok::<Option<bool>, MigrationError>(v),
            Err(e) => result matches Err(r) && r.view() == e,
        },
{
    match optional(pairs, key) {
        None => Ok(None),
        Some(v) => {
            let at = field_at(location, key);
            match boolean(v, at.as_str()) {
                Ok(b) => Ok(Some(b)),
                Err(e) => Err(e),
            }
        },
    }
}

/// `location.key`.
fn field_at(location: &str, key: &str) -> (result: String)
    ensures
        result@ == field_location(location@, key@),
{
    proof {
        reveal_strlit(".");
    }
    let mut out = location.to_owned();
    push_str(&mut out, ".");
    push_str(&mut out, key);
    out
}

/// The tag effects around `note.tags`, innermost first, appended to `effects`.
fn tag_effects(form: &Form, location: &str, effects: &mut Vec<ActionEffect>) -> (result: Result<(), MigrationError>)
    ensures
        match tag_effects_spec(form.view(), location@) {
            Ok(es) => result is Ok && effect_views(final(effects)@) == effect_views(old(effects)@) + es,
            Err(e) => result matches Err(r) && r.view() == e,
        },
    decreases form,
{
    match form {
        Form::Symbol(v) => {
            let chars = chars_of(v.as_str());
            if eq_str(chars.as_slice(), "note.tags") {
                assert(effect_views(effects@) + Seq::<EffectView>::empty() =~= effect_views(effects@));
                Ok(())
            } else {
                Err(unsupported(location, form))
            }
        },
        Form::List(values) => {
            proof {
                lemma_forms_view_index(values@);
            }
            let add = symbol_is(values, 0, "add-tag");
            if values.len() == 3 && (add || symbol_is(values, 0, "remove-tag")) {
                proof {
                    assert(decreases_to!(*form => form->List_0));
                    assert(decreases_to!(*values => values@));
                    assert(decreases_to!(values@ => values@[1]));
                }
                let ghost start = effect_views(effects@);
                match tag_effects(&values[1], location, effects) {
                    Ok(()) => {},
                    Err(e) => {
                        return Err(e);
                    },
                }
                let tag = match string_value(&values[2], location) {
                    Ok(tag) => tag,
                    Err(e) => {
                        return Err(e);
                    },
                };
                let ghost middle = effects@;
                let effect = if add {
                    ActionEffect::AddTag { tag }
                } else {
                    ActionEffect::RemoveTag { tag }
                };
                effects.push(effect);
                proof {
                    assert(effect_views(effects@) =~= effect_views(middle).push(effect.view()));
                    match tag_effects_spec(values@[1].view(), location@) {
                        Ok(inner) => {
                            assert(start + inner.push(effect.view()) =~= (start + inner).push(effect.view()));
                        },
                        Err(e) => {},
                    }
                }
                Ok(())
            } else {
                Err(unsupported(location, form))
            }
        },
        _ => Err(unsupported(location, form)),
    }
}

/// The effects of an action's `run` lambda.
fn effects(form: &Form, location: &str) -> (result: Result<Vec<ActionEffect>, MigrationError>)
    ensures
        match effects_spec(form.view(), location@) {
            Ok(es) => result matches Ok(r) && effect_views(r@) == es,
            Err(e) => result matches Err(r) && r.view() == e,
        },
{
    let body = match lambda_body(form, location) {
        Ok(body) => body,
        Err(e) => {
            return Err(e);
        },
    };
    match body {
        Form::List(values) => {
            proof {
                lemma_forms_view_index(values@);
            }
            let note = values.len() == 4 && match &values[1] {
                Form::Symbol(v) => {
                    let chars = chars_of(v.as_str());
                    eq_str(chars.as_slice(), "note")
                },
                _ => false,
            };
            if !symbol_is(values, 0, "assoc") || !note {
                return Err(unsupported(location, body));
            }
            let target = match keyword(&values[2], location) {
                Ok(t) => t,
                Err(e) => {
                    return Err(e);
                },
            };
            let target_chars = chars_of(target.as_str());
            let mut result: Vec<ActionEffect> = Vec::new();
            if eq_str(target_chars.as_slice(), "tags") {
                match tag_effects(&values[3], location, &mut result) {
                    Ok(()) => {
                        proof {
                            assert(effect_views(Seq::<ActionEffect>::empty()) =~= Seq::<EffectView>::empty());
                            match tag_effects_spec(values@[3].view(), location@) {
                                Ok(es) => {
                                    assert(Seq::<EffectView>::empty() + es =~= es);
                                },
                                Err(e) => {},
                            }
                        }
                        Ok(result)
                    },
                    Err(e) => Err(e),
                }
            } else {
                match string_value(&values[3], location) {
                    Ok(v) => {
                        let effect = ActionEffect::SetField { field: target, value: FrontmatterValue::String(v) };
                        result.push(effect);
                        assert(effect_views(result@) =~= seq![effect.view()]);
                        Ok(result)
                    },
                    Err(e) => Err(e),
                }
            }
        },
        _ => Err(unsupported(location, body)),
    }
}

/// A name turned into an identifier.
fn identifier(name: &str) -> (result: String)
    ensures
        result@ == identifier_spec(name@),
{
    let lower = lowercase(name);
    let chars = chars_of(lower.as_str());
    let mut mapped: Vec<char> = Vec::new();
    let mut i: usize = 0;
    while i < chars.len()
        invariant
            i <= chars@.len(),
            mapped@ == dash_map(chars@).take(i as int),
        decreases chars@.len() - i,
    {
        let c = chars[i];
        mapped.push(if ascii_alnum(c) {
            c
        } else {
            '-'
        });
        assert(mapped@ =~= dash_map(chars@).take(i + 1));
        i = i + 1;
    }
    let ghost m = dash_map(chars@);
    assert(mapped@ =~= m);
    let mut start: usize = 0;
    proof {
        assert(m.skip(0) =~= m);
    }
    while start < mapped.len() && mapped[start] == '-'
        invariant
            start <= mapped@.len(),
            mapped@ == m,
            trim_dash_start(m.skip(start as int)) == trim_dash_start(m),
        decreases mapped@.len() - start,
    {
        assert(m.skip(start as int).drop_first() =~= m.skip(start + 1));
        start = start + 1;
    }
    let mut end: usize = mapped.len();
    proof {
        assert(m.subrange(start as int, end as int) =~= m.skip(start as int));
    }
    while end > start && mapped[end - 1] == '-'
        invariant
            start <= end <= mapped@.len(),
            mapped@ == m,
            trim_dash_end(m.subrange(start as int, end as int)) == trim_dashes(m),
        decreases end,
    {
        assert(m.subrange(start as int, end as int).drop_last() =~= m.subrange(start as int, end - 1));
        end = end - 1;
    }
    string_range(mapped.as_slice(), start, end)
}

/// A subview description.
fn migrate_subview(form: &Form, location: &str) -> (result: Result<SubviewDescriptor, MigrationError>)
    ensures
        match subview_spec(form.view(), location@) {
            Ok(v) => result matches Ok(r) && r.view() == v,
            Err(e) => result matches Err(r) && r.view() == e,
        },
{
    let values = match table(form, location) {
        Ok(v) => v,
        Err(e) => {
            return Err(e);
        },
    };
    let name_form = match get(values, "name", location) {
        Ok(f) => f,
        Err(e) => {
            return Err(e);
        },
    };
    let name_at = field_at(location, "name");
    let name = match string_value(name_form, name_at.as_str()) {
        Ok(n) => n,
        Err(e) => {
            return Err(e);
        },
    };
    let when = match get(values, "when", location) {
        Ok(f) => f,
        Err(e) => {
            return Err(e);
        },
    };
    let when_at = field_at(location, "when");
    let predicate = match lambda_predicate(when, when_at.as_str()) {
        Ok(p) => p,
        Err(e) => {
            return Err(e);
        },
    };
    Ok(SubviewDescriptor { id: identifier(name.as_str()), name, predicate })
}

/// `vs` before the subviews of a successful migration.
pub open spec fn prepend_subviews(
    vs: Seq<SubviewView>,
    r: Result<Seq<SubviewView>, MigrationErrorView>,
) -> Result<Seq<SubviewView>, MigrationErrorView> {
    match r {
        Ok(rest) => Ok(vs + rest),
        Err(e) => Err(e),
    }
}

/// The views of subview descriptions.
pub open spec fn subview_views(s: Seq<SubviewDescriptor>) -> Seq<SubviewView> {
    s.map_values(|v: SubviewDescriptor| v.view())
}

/// `location.subviews[i]`.
fn subview_at(location: &str, i: usize) -> (result: String)
    ensures
        result@ == subview_location(location@, i as nat),
{
    proof {
        reveal_strlit(".subviews[");
        reveal_strlit("]");
    }
    let mut out = location.to_owned();
    push_str(&mut out, ".subviews[");
    let index = decimal(i as u64);
    push_str(&mut out, index.as_str());
    push_str(&mut out, "]");
    out
}

/// The subviews of a view description.
fn migrate_subviews(values: &Vec<(Form, Form)>, location: &str) -> (result: Result<Vec<SubviewDescriptor>, MigrationError>)
    ensures
        match subviews_spec(pairs_view(values@), location@) {
            Ok(v) => result matches Ok(r) && subview_views(r@) == v,
            Err(e) => result matches Err(r) && r.view() == e,
        },
{
    let mut result: Vec<SubviewDescriptor> = Vec::new();
    let items = match optional(values, "subviews") {
        None => {
            assert(subview_views(result@) =~= Seq::<SubviewView>::empty());
            return Ok(result);
        },
        Some(items) => items,
    };
    let at = field_at(location, "subviews");
    let list = match vector(items, at.as_str()) {
        Ok(list) => list,
        Err(e) => {
            return Err(e);
        },
    };
    let ghost views = forms_view(list@);
    proof {
        lemma_forms_view_index(list@);
    }
    let mut i: usize = 0;
    while i < list.len()
        invariant
            i <= list@.len(),
            views == forms_view(list@),
            views.len() == list@.len(),
            forall|j: int| 0 <= j < list@.len() ==> views[j] == (#[trigger] list@[j]).view(),
            subviews_spec(pairs_view(values@), location@) == subview_list_spec(views, location@, 0),
            subview_list_spec(views, location@, 0) == prepend_subviews(
                subview_views(result@),
                subview_list_spec(views, location@, i as nat),
            ),
        decreases list@.len() - i,
    {
        let here = subview_at(location, i);
        match migrate_subview(&list[i], here.as_str()) {
            Ok(sv) => {
                let ghost before = subview_views(result@);
                result.push(sv);
                proof {
                    assert(subview_views(result@) =~= before.push(sv.view()));
                    match subview_list_spec(views, location@, (i + 1) as nat) {
                        Ok(rest) => {
                            assert(before + (seq![sv.view()] + rest) =~= before.push(sv.view()) + rest);
                        },
                        Err(e) => {},
                    }
                }
            },
            Err(e) => {
                return Err(e);
            },
        }
        i = i + 1;
    }
    proof {
        assert(subview_views(result@) + Seq::<SubviewView>::empty() =~= subview_views(result@));
    }
    Ok(result)
}

/// A view description named `id`.
fn migrate_view(id: &str, form: &Form) -> (result: Result<ViewDescriptor, MigrationError>)
    ensures
        match view_spec(id@, form.view()) {
            Ok(v) => result matches Ok(r) && r.view() == v,
            Err(e) => result matches Err(r) && r.view() == e,
        },
{
    let location = concat("views.", id);
    proof {
        reveal_strlit("views.");
    }
    let values = match table(form, location.as_str()) {
        Ok(v) => v,
        Err(e) => {
            return Err(e);
        },
    };
    let name_form = match get(values, "name", location.as_str()) {
        Ok(f) => f,
        Err(e) => {
            return Err(e);
        },
    };
    let name_at = field_at(location.as_str(), "name");
    let name = match string_value(name_form, name_at.as_str()) {
        Ok(n) => n,
        Err(e) => {
            return Err(e);
        },
    };
    let subviews = match migrate_subviews(values, location.as_str()) {
        Ok(s) => s,
        Err(e) => {
            return Err(e);
        },
    };
    let key = match optional_string(values, location.as_str(), "key") {
        Ok(k) => k,
        Err(e) => {
            return Err(e);
        },
    };
    let show = match optional_bool(values, location.as_str(), "show-tags") {
        Ok(b) => b,
        Err(e) => {
            return Err(e);
        },
    };
    let title = match optional_string(values, location.as_str(), "title-field") {
        Ok(t) => t,
        Err(e) => {
            return Err(e);
        },
    };
    let subtitle = match optional_string(values, location.as_str(), "subtitle-field") {
        Ok(t) => t,
        Err(e) => {
            return Err(e);
        },
    };
    let sort = match optional_string(values, location.as_str(), "sort-field") {
        Ok(t) => t,
        Err(e) => {
            return Err(e);
        },
    };
    let order = match optional_string(values, location.as_str(), "sort-order") {
        Ok(t) => t,
        Err(e) => {
            return Err(e);
        },
    };
    let preview = match optional_string(values, location.as_str(), "stats-template") {
        Ok(t) => t,
        Err(e) => {
            return Err(e);
        },
    };
    let when = match get(values, "when", location.as_str()) {
        Ok(f) => f,
        Err(e) => {
            return Err(e);
        },
    };
    let when_at = field_at(location.as_str(), "when");
    let predicate = match lambda_predicate(when, when_at.as_str()) {
        Ok(p) => p,
        Err(e) => {
            return Err(e);
        },
    };
    let descending = match &order {
        Some(o) => {
            let chars = chars_of(o.as_str());
            eq_str(chars.as_slice(), "desc")
        },
        None => false,
    };
    let show_tags = match show {
        Some(b) => b,
        None => false,
    };
    let title_field = match title {
        Some(t) => t,
        None => "title".to_owned(),
    };
    let result = ViewDescriptor {
        id: id.to_owned(),
        name,
        key,
        show_tags,
        title_field,
        subtitle_field: subtitle,
        sort_field: sort,
        descending,
        preview,
        predicate,
        subviews,
    };
    proof {
        assert(result.view().subviews =~= subview_views(result.subviews@));
    }
    Ok(result)
}

/// The abstract value of an action, as far as migration sets it.
pub open spec fn action_view(a: ActionDescriptor) -> ActionView {
    ActionView {
        id: a.id@,
        description: a.description@,
        predicate: a.predicate.view(),
        effects: effect_views(a.effects@),
    }
}

/// An action description named `id`; migrated actions run no plugin.
fn migrate_action(id: &str, form: &Form) -> (result: Result<ActionDescriptor, MigrationError>)
    ensures
        match action_spec(id@, form.view()) {
            Ok(v) => result matches Ok(r) && action_view(r) == v && r.plugin is None,
            Err(e) => result matches Err(r) && r.view() == e,
        },
{
    let location = concat("actions.", id);
    proof {
        reveal_strlit("actions.");
    }
    let values = match table(form, location.as_str()) {
        Ok(v) => v,
        Err(e) => {
            return Err(e);
        },
    };
    let description_form = match get(values, "description", location.as_str()) {
        Ok(f) => f,
        Err(e) => {
            return Err(e);
        },
    };
    let description_at = field_at(location.as_str(), "description");
    let description = match string_value(description_form, description_at.as_str()) {
        Ok(d) => d,
        Err(e) => {
            return Err(e);
        },
    };
    let when = match get(values, "when", location.as_str()) {
        Ok(f) => f,
        Err(e) => {
            return Err(e);
        },
    };
    let when_at = field_at(location.as_str(), "when");
    let predicate = match lambda_predicate(when, when_at.as_str()) {
        Ok(p) => p,
        Err(e) => {
            return Err(e);
        },
    };
    let run = match get(values, "run", location.as_str()) {
        Ok(f) => f,
        Err(e) => {
            return Err(e);
        },
    };
    let run_at = field_at(location.as_str(), "run");
    let effects = match effects(run, run_at.as_str()) {
        Ok(es) => es,
        Err(e) => {
            return Err(e);
        },
    };
    Ok(ActionDescriptor { id: id.to_owned(), description, predicate, effects, plugin: None })
}

/// The behavior a legacy configuration describes, before it is validated.
pub struct MigratedView {
    pub default_view: Seq<char>,
    pub views: Seq<ViewView>,
    pub actions: Seq<ActionView>,
}

/// The views of `entries[i..]`, keyed by keyword.
pub open spec fn views_spec(entries: Seq<(FormView, FormView)>, i: nat) -> Result<Seq<ViewView>, MigrationErrorView>
    decreases entries.len() - i,
{
    if i >= entries.len() {
        Ok(Seq::empty())
    } else {
        match keyword_spec(entries[i as int].0, "root.views key"@) {
            Err(e) => Err(e),
            Ok(id) => match view_spec(id, entries[i as int].1) {
                Err(e) => Err(e),
                Ok(v) => match views_spec(entries, i + 1) {
                    Ok(rest) => Ok(seq![v] + rest),
                    Err(e) => Err(e),
                },
            },
        }
    }
}

/// The actions of `entries[i..]`, keyed by keyword.
pub open spec fn actions_spec(entries: Seq<(FormView, FormView)>, i: nat) -> Result<Seq<ActionView>, MigrationErrorView>
    decreases entries.len() - i,
{
    if i >= entries.len() {
        Ok(Seq::empty())
    } else {
        match keyword_spec(entries[i as int].0, "root.actions key"@) {
            Err(e) => Err(e),
            Ok(id) => match action_spec(id, entries[i as int].1) {
                Err(e) => Err(e),
                Ok(a) => match actions_spec(entries, i + 1) {
                    Ok(rest) => Ok(seq![a] + rest),
                    Err(e) => Err(e),
                },
            },
        }
    }
}

/// What a legacy configuration describes, or why it cannot be migrated.
pub open spec fn migration_spec(source: Seq<char>) -> Result<MigratedView, MigrationErrorView> {
    match read_spec(source) {
        Err(x) => Err(MigrationErrorView::Syntax { offset: x.offset, message: x.message }),
        Ok(root) => match table_spec(root, "root"@) {
            Err(e) => Err(e),
            Ok(rv) => match get_spec(rv, "default-view"@, "root"@) {
                Err(e) => Err(e),
                Ok(dv) => match keyword_spec(dv, "root.default-view"@) {
                    Err(e) => Err(e),
                    Ok(default_view) => match get_spec(rv, "views"@, "root"@) {
                        Err(e) => Err(e),
                        Ok(vf) => match table_spec(vf, "root.views"@) {
                            Err(e) => Err(e),
                            Ok(ventries) => match views_spec(ventries, 0) {
                                Err(e) => Err(e),
                                Ok(views) => match get_spec(rv, "actions"@, "root"@) {
                                    Err(e) => Err(e),
                                    Ok(af) => match table_spec(af, "root.actions"@) {
                                        Err(e) => Err(e),
                                        Ok(aentries) => match actions_spec(aentries, 0) {
                                            Err(e) => Err(e),
                                            Ok(actions) => Ok(MigratedView { default_view, views, actions }),
                                        },
                                    },
                                },
                            },
                        },
                    },
                },
            },
        },
    }
}

/// The first view whose subview identifiers are empty or repeated.
pub open spec fn migrated_subviews_error(views: Seq<ViewView>) -> Option<BehaviorErrorView>
    decreases views.len(),
{
    if views.len() == 0 {
        None
    } else {
        match duplicate_error("subview"@, views[0].subviews.map_values(|v: SubviewView| v.id)) {
            Some(e) => Some(e),
            None => migrated_subviews_error(views.drop_first()),
        }
    }
}

/// Which error validating the migrated behavior reports.
pub open spec fn migrated_validation(m: MigratedView) -> Option<BehaviorErrorView> {
    if duplicate_error("view"@, m.views.map_values(|v: ViewView| v.id)) is Some {
        duplicate_error("view"@, m.views.map_values(|v: ViewView| v.id))
    } else if duplicate_error("action"@, m.actions.map_values(|a: ActionView| a.id)) is Some {
        duplicate_error("action"@, m.actions.map_values(|a: ActionView| a.id))
    } else if migrated_subviews_error(m.views) is Some {
        migrated_subviews_error(m.views)
    } else if m.default_view != "all"@ && !(exists|i: int| 0 <= i < m.views.len() && (#[trigger] m.views[i]).id == m.default_view) {
        Some(BehaviorErrorView::UnknownView(m.default_view))
    } else {
        None
    }
}

/// Whether `b` is the migrated behavior `m`: the current schema and query
/// limit, no templates, the views and actions of `m` in order (running no
/// plugin), and a grant of `MutateNote` to each action, in ascending order.
pub open spec fn behavior_is(b: WorkspaceBehavior, m: MigratedView) -> bool {
    &&& b.schema == BEHAVIOR_SCHEMA
    &&& b.query_limit == DEFAULT_QUERY_LIMIT
    &&& b.default_view@ == m.default_view
    &&& b.templates@.len() == 0
    &&& b.views@.map_values(|v: ViewDescriptor| v.view()) == m.views
    &&& b.actions@.map_values(|a: ActionDescriptor| action_view(a)) == m.actions
    &&& forall|i: int| 0 <= i < b.actions@.len() ==> (#[trigger] b.actions@[i]).plugin is None
    &&& strictly_sorted(grant_actions(b.capability_grants@))
    &&& grant_actions(b.capability_grants@).to_set() == m.actions.map_values(|a: ActionView| a.id).to_set()
    &&& forall|i: int| 0 <= i < b.capability_grants@.len() ==> (#[trigger] b.capability_grants@[i]).capabilities@ == seq![Capability::MutateNote]
}

/// Validation reads of a behavior only what the migration fixed.
proof fn lemma_validation_of_migrated(b: WorkspaceBehavior, m: MigratedView)
    requires
        behavior_is(b, m),
    ensures
        validation_error(b) == migrated_validation(m),
{
    assert(view_ids(b.views@) =~= m.views.map_values(|v: ViewView| v.id));
    assert(action_ids(b.actions@) =~= m.actions.map_values(|a: ActionView| a.id));
    assert(template_ids(b.templates@) =~= Seq::<Seq<char>>::empty());
    assert(duplicate_error("template"@, template_ids(b.templates@)) is None);
    lemma_subviews_error_migrated(b.views@, m.views);
    if b.default_view@ != "all"@ {
        if has_view(b.views@, b.default_view@) {
            let i = choose|i: int| 0 <= i < b.views@.len() && (#[trigger] b.views@[i]).id@ == b.default_view@;
            assert(m.views[i].id == b.default_view@);
        }
        if exists|i: int| 0 <= i < m.views.len() && (#[trigger] m.views[i]).id == m.default_view {
            let i = choose|i: int| 0 <= i < m.views.len() && (#[trigger] m.views[i]).id == m.default_view;
            assert(b.views@[i].view().id == m.default_view);
            assert(has_view(b.views@, b.default_view@));
        }
    }
}

proof fn lemma_subviews_error_migrated(views: Seq<ViewDescriptor>, m: Seq<ViewView>)
    requires
        views.map_values(|v: ViewDescriptor| v.view()) == m,
    ensures
        subviews_error(views) == migrated_subviews_error(m),
    decreases views.len(),
{
    if views.len() > 0 {
        assert(m[0] == views[0].view());
        assert(subview_ids(views[0].subviews@) =~= m[0].subviews.map_values(|v: SubviewView| v.id));
        assert(views.drop_first().map_values(|v: ViewDescriptor| v.view()) =~= m.drop_first());
        lemma_subviews_error_migrated(views.drop_first(), m.drop_first());
    }
}

/// `vs` before the views of a successful migration.
pub open spec fn prepend_views(vs: Seq<ViewView>, r: Result<Seq<ViewView>, MigrationErrorView>) -> Result<Seq<ViewView>, MigrationErrorView> {
    match r {
        Ok(rest) => Ok(vs + rest),
        Err(e) => Err(e),
    }
}

/// `vs` before the actions of a successful migration.
pub open spec fn prepend_actions(vs: Seq<ActionView>, r: Result<Seq<ActionView>, MigrationErrorView>) -> Result<Seq<ActionView>, MigrationErrorView> {
    match r {
        Ok(rest) => Ok(vs + rest),
        Err(e) => Err(e),
    }
}

/// The views of a `:views` table.
fn migrate_views(entries: &Vec<(Form, Form)>) -> (result: Result<Vec<ViewDescriptor>, MigrationError>)
    ensures
        match views_spec(pairs_view(entries@), 0) {
            Ok(vs) => result matches Ok(r) && r@.map_values(|v: ViewDescriptor| v.view()) == vs,
            Err(e) => result matches Err(r) && r.view() == e,
        },
{
    let ghost vviews = pairs_view(entries@);
    proof {
        lemma_pairs_view_index(entries@);
    }
    let mut views: Vec<ViewDescriptor> = Vec::new();
    let mut i: usize = 0;
    while i < entries.len()
        invariant
            i <= entries@.len(),
            vviews == pairs_view(entries@),
            vviews.len() == entries@.len(),
            forall|j: int| 0 <= j < entries@.len() ==> vviews[j] == ((#[trigger] entries@[j]).0.view(), entries@[j].1.view()),
            views_spec(vviews, 0) == prepend_views(
                views@.map_values(|v: ViewDescriptor| v.view()),
                views_spec(vviews, i as nat),
            ),
        decreases entries@.len() - i,
    {
        let id = match keyword(&entries[i].0, "root.views key") {
            Ok(k) => k,
            Err(e) => {
                return Err(e);
            },
        };
        let view = match migrate_view(id.as_str(), &entries[i].1) {
            Ok(v) => v,
            Err(e) => {
                return Err(e);
            },
        };
        let ghost before = views@.map_values(|v: ViewDescriptor| v.view());
        views.push(view);
        proof {
            assert(views@.map_values(|v: ViewDescriptor| v.view()) =~= before.push(view.view()));
            match views_spec(vviews, (i + 1) as nat) {
                Ok(rest) => {
                    assert(before + (seq![view.view()] + rest) =~= before.push(view.view()) + rest);
                },
                Err(e) => {},
            }
        }
        i = i + 1;
    }
    proof {
        assert(views@.map_values(|v: ViewDescriptor| v.view()) + Seq::<ViewView>::empty() =~= views@.map_values(|v: ViewDescriptor| v.view()));
    }
    Ok(views)
}

/// The actions of an `:actions` table, and their identifiers in ascending
/// order without repetition.
fn migrate_actions(entries: &Vec<(Form, Form)>) -> (result: Result<(Vec<ActionDescriptor>, Vec<String>), MigrationError>)
    ensures
        match actions_spec(pairs_view(entries@), 0) {
            Ok(avs) => result matches Ok((r, ids)) && r@.map_values(|a: ActionDescriptor| action_view(a)) == avs
                && (forall|j: int| 0 <= j < r@.len() ==> (#[trigger] r@[j]).plugin is None)
                && strictly_sorted(string_views(ids@))
                && string_views(ids@).to_set() == avs.map_values(|a: ActionView| a.id).to_set(),
            Err(e) => result matches Err(r) && r.view() == e,
        },
{
    let ghost aviews = pairs_view(entries@);
    proof {
        lemma_pairs_view_index(entries@);
    }
    let mut actions: Vec<ActionDescriptor> = Vec::new();
    let mut ids: Vec<String> = Vec::new();
    let mut k: usize = 0;
    proof {
        assert(actions@.map_values(|a: ActionDescriptor| action_view(a)).map_values(|a: ActionView| a.id) =~= Seq::<Seq<char>>::empty());
        assert(string_views(ids@) =~= Seq::<Seq<char>>::empty());
    }
    while k < entries.len()
        invariant
            k <= entries@.len(),
            aviews == pairs_view(entries@),
            aviews.len() == entries@.len(),
            forall|j: int| 0 <= j < entries@.len() ==> aviews[j] == ((#[trigger] entries@[j]).0.view(), entries@[j].1.view()),
            actions_spec(aviews, 0) == prepend_actions(
                actions@.map_values(|a: ActionDescriptor| action_view(a)),
                actions_spec(aviews, k as nat),
            ),
            forall|j: int| 0 <= j < actions@.len() ==> (#[trigger] actions@[j]).plugin is None,
            strictly_sorted(string_views(ids@)),
            string_views(ids@).to_set() == actions@.map_values(|a: ActionDescriptor| action_view(a)).map_values(|a: ActionView| a.id).to_set(),
        decreases entries@.len() - k,
    {
        let id = match keyword(&entries[k].0, "root.actions key") {
            Ok(name) => name,
            Err(e) => {
                return Err(e);
            },
        };
        let action = match migrate_action(id.as_str(), &entries[k].1) {
            Ok(a) => a,
            Err(e) => {
                return Err(e);
            },
        };
        let ghost before = actions@.map_values(|a: ActionDescriptor| action_view(a));
        let ghost before_ids = before.map_values(|a: ActionView| a.id);
        let ghost av = action_view(action);
        insert_sorted(&mut ids, id);
        actions.push(action);
        proof {
            assert(actions@.map_values(|a: ActionDescriptor| action_view(a)) =~= before.push(av));
            assert(before.push(av).map_values(|a: ActionView| a.id) =~= before_ids.push(av.id));
            before_ids.lemma_push_to_set_commute(av.id);
            match actions_spec(aviews, (k + 1) as nat) {
                Ok(rest) => {
                    assert(before + (seq![av] + rest) =~= before.push(av) + rest);
                },
                Err(e) => {},
            }
        }
        k = k + 1;
    }
    proof {
        assert(actions@.map_values(|a: ActionDescriptor| action_view(a)) + Seq::<ActionView>::empty() =~= actions@.map_values(|a: ActionDescriptor| action_view(a)));
    }
    Ok((actions, ids))
}

/// A grant of note mutation to each action.
fn mutation_grants(ids: &Vec<String>) -> (result: Vec<CapabilityGrant>)
    ensures
        grant_actions(result@) == string_views(ids@),
        forall|j: int| 0 <= j < result@.len() ==> (#[trigger] result@[j]).capabilities@ == seq![Capability::MutateNote],
{
    let mut grants: Vec<CapabilityGrant> = Vec::new();
    let mut g: usize = 0;
    while g < ids.len()
        invariant
            g <= ids@.len(),
            grants@.len() == g,
            forall|j: int| 0 <= j < g ==> (#[trigger] grants@[j]).action@ == ids@[j]@,
            forall|j: int| 0 <= j < g ==> (#[trigger] grants@[j]).capabilities@ == seq![Capability::MutateNote],
        decreases ids@.len() - g,
    {
        let mut capabilities: Vec<Capability> = Vec::new();
        capabilities.push(Capability::MutateNote);
        grants.push(CapabilityGrant { action: ids[g].clone(), capabilities });
        g = g + 1;
    }
    proof {
        assert(grant_actions(grants@) =~= string_views(ids@));
    }
    grants
}

/// Check and wrap a migrated behavior.
fn finish_migration(behavior: WorkspaceBehavior, Ghost(m): Ghost<MigratedView>) -> (result: Result<WorkspaceBehavior, MigrationError>)
    requires
        behavior_is(behavior, m),
    ensures
        match migrated_validation(m) {
            Some(be) => result matches Err(r) && r.view() == (MigrationErrorView::Unsupported {
                location: "root"@,
                construct: behavior_message(be),
            }),
            None => result matches Ok(b) && behavior_is(b, m),
        },
{
    proof {
        lemma_validation_of_migrated(behavior, m);
    }
    match behavior.validate() {
        Ok(()) => Ok(behavior),
        Err(e) => Err(MigrationError::Unsupported { location: "root".to_owned(), construct: e.message() }),
    }
}

/// Migrate the documented legacy Fennel subset to a behavior description,
/// without running any of it: views with their predicates and subviews,
/// actions with their tag and field effects, each action granted note
/// mutation; the result must validate.
pub fn migrate_fennel(source: &str) -> (result: Result<WorkspaceBehavior, MigrationError>)
    ensures
        match migration_spec(source@) {
            Err(e) => result matches Err(r) && r.view() == e,
            Ok(m) => match migrated_validation(m) {
                Some(be) => result matches Err(r) && r.view() == (MigrationErrorView::Unsupported {
                    location: "root"@,
                    construct: behavior_message(be),
                }),
                None => result matches Ok(b) && behavior_is(b, m),
            },
        },
{
    let root = match read(source) {
        Ok(f) => f,
        Err(e) => {
            return Err(MigrationError::Syntax { offset: e.offset, message: e.message.to_owned() });
        },
    };
    let rv = match table(&root, "root") {
        Ok(v) => v,
        Err(e) => {
            return Err(e);
        },
    };
    let dv = match get(rv, "default-view", "root") {
        Ok(f) => f,
        Err(e) => {
            return Err(e);
        },
    };
    let default_view = match keyword(dv, "root.default-view") {
        Ok(k) => k,
        Err(e) => {
            return Err(e);
        },
    };
    let vf = match get(rv, "views", "root") {
        Ok(f) => f,
        Err(e) => {
            return Err(e);
        },
    };
    let ventries = match table(vf, "root.views") {
        Ok(v) => v,
        Err(e) => {
            return Err(e);
        },
    };
    let views = match migrate_views(ventries) {
        Ok(v) => v,
        Err(e) => {
            return Err(e);
        },
    };
    let af = match get(rv, "actions", "root") {
        Ok(f) => f,
        Err(e) => {
            return Err(e);
        },
    };
    let aentries = match table(af, "root.actions") {
        Ok(v) => v,
        Err(e) => {
            return Err(e);
        },
    };
    let (actions, ids) = match migrate_actions(aentries) {
        Ok(pair) => pair,
        Err(e) => {
            return Err(e);
        },
    };
    let grants = mutation_grants(&ids);
    let behavior = WorkspaceBehavior {
        schema: BEHAVIOR_SCHEMA,
        default_view,
        views,
        actions,
        templates: Vec::new(),
        capability_grants: grants,
        query_limit: DEFAULT_QUERY_LIMIT,
    };
    let ghost m = MigratedView {
        default_view: behavior.default_view@,
        views: behavior.views@.map_values(|v: ViewDescriptor| v.view()),
        actions: behavior.actions@.map_values(|a: ActionDescriptor| action_view(a)),
    };
    finish_migration(behavior, Ghost(m))
}

} // verus!
