//! What the frontmatter of a note holds, read from the YAML value that its
//! `---` block parses to: a mapping with string keys, kept in key order.

use vstd::prelude::*;

use crate::domain::{entries_view, lemma_entries_view_index, lemma_values_view_index, values_view, FrontmatterValue, FrontmatterView};
use crate::markdown::MarkdownError;
use crate::text::{compare_str, lemma_lex_order_antisym, lex_order, order_value, Order};

verus! {

/// A YAML value as a YAML parser reads it. A number is an `Integer` where it
/// fits in `i64`, `Unsigned` where only `u64` holds it, and otherwise a
/// `Float` held as its binary64 bit pattern.
#[derive(Debug, PartialEq, Eq)]
pub enum YamlNode {
    Null,
    Bool(bool),
    Integer(i64),
    Unsigned(u64),
    Float(u64),
    String(String),
    Sequence(Vec<YamlNode>),
    Mapping(Vec<(YamlNode, YamlNode)>),
    Tagged(Box<YamlNode>),
}

/// Store `v` under `k` in entries kept in ascending key order, replacing
/// what was stored under `k`.
pub open spec fn upsert(es: Seq<(Seq<char>, FrontmatterView)>, k: Seq<char>, v: FrontmatterView) -> Seq<(Seq<char>, FrontmatterView)>
    decreases es.len(),
{
    if es.len() == 0 {
        seq![(k, v)]
    } else if lex_order(k, es[0].0) < 0 {
        seq![(k, v)] + es
    } else if k == es[0].0 {
        seq![(k, v)] + es.drop_first()
    } else {
        seq![es[0]] + upsert(es.drop_first(), k, v)
    }
}

/// The frontmatter value a YAML value gives.
pub open spec fn yaml_value(node: YamlNode) -> Result<FrontmatterView, MarkdownError>
    decreases node,
{
    match node {
        YamlNode::Null => Ok(FrontmatterView::Null),
        YamlNode::Bool(b) => Ok(FrontmatterView::Bool(b)),
        YamlNode::Integer(n) => Ok(FrontmatterView::Integer(n)),
        YamlNode::Unsigned(n) => if n <= i64::MAX {
            Ok(FrontmatterView::Integer(n as i64))
        } else {
            Err(MarkdownError::UnsupportedValue)
        },
        YamlNode::Float(bits) => Ok(FrontmatterView::Float(bits)),
        YamlNode::String(s) => Ok(FrontmatterView::Text(s@)),
        YamlNode::Sequence(items) => match yaml_values(items@) {
            Ok(vs) => Ok(FrontmatterView::Sequence(vs)),
            Err(e) => Err(e),
        },
        YamlNode::Mapping(entries) => match yaml_entries(entries@, Seq::empty()) {
            Ok(es) => Ok(FrontmatterView::Mapping(es)),
            Err(e) => Err(e),
        },
        YamlNode::Tagged(inner) => yaml_value(*inner),
    }
}

/// The frontmatter values of YAML items, or the first refusal among them.
pub open spec fn yaml_values(items: Seq<YamlNode>) -> Result<Seq<FrontmatterView>, MarkdownError>
    decreases items,
{
    if items.len() == 0 {
        Ok(Seq::empty())
    } else {
        match yaml_value(items[0]) {
            Err(e) => Err(e),
            Ok(v) => match yaml_values(items.drop_first()) {
                Ok(vs) => Ok(seq![v] + vs),
                Err(e) => Err(e),
            },
        }
    }
}

/// The entries that YAML mapping entries add to `acc`, in order, a later
/// entry replacing an earlier one with the same key; or the first refusal.
pub open spec fn yaml_entries(entries: Seq<(YamlNode, YamlNode)>, acc: Seq<(Seq<char>, FrontmatterView)>) -> Result<Seq<(Seq<char>, FrontmatterView)>, MarkdownError>
    decreases entries,
{
    if entries.len() == 0 {
        Ok(acc)
    } else {
        match entries[0].0 {
            YamlNode::String(k) => match yaml_value(entries[0].1) {
                Err(e) => Err(e),
                Ok(v) => yaml_entries(entries.drop_first(), upsert(acc, k@, v)),
            },
            _ => Err(MarkdownError::NonStringKey),
        }
    }
}

/// The frontmatter a YAML document gives: none for an empty document, the
/// entries of a mapping, and a refusal for anything else.
pub open spec fn yaml_frontmatter(node: YamlNode) -> Result<Seq<(Seq<char>, FrontmatterView)>, MarkdownError> {
    match node {
        YamlNode::Null => Ok(Seq::empty()),
        YamlNode::Mapping(entries) => yaml_entries(entries@, Seq::empty()),
        _ => Err(MarkdownError::UnsupportedValue),
    }
}

/// `upsert` places the entry at the first key that is not below it.
proof fn lemma_upsert_at(es: Seq<(Seq<char>, FrontmatterView)>, k: Seq<char>, v: FrontmatterView, i: int)
    requires
        0 <= i <= es.len(),
        forall|j: int| 0 <= j < i ==> lex_order(k, #[trigger] es[j].0) > 0,
        i < es.len() ==> lex_order(k, es[i].0) <= 0,
    ensures
        upsert(es, k, v) == if i < es.len() && es[i].0 == k {
            es.take(i) + seq![(k, v)] + es.skip(i + 1)
        } else {
            es.take(i) + seq![(k, v)] + es.skip(i)
        },
    decreases i,
{
    if i == 0 {
        if es.len() > 0 {
            lemma_lex_order_antisym(k, es[0].0);
            assert(es.skip(1) =~= es.drop_first());
        }
        assert(es.take(0) + seq![(k, v)] + es.skip(0) =~= seq![(k, v)] + es);
        assert(es.take(0) + seq![(k, v)] =~= seq![(k, v)]);
    } else {
        lemma_lex_order_antisym(k, es[0].0);
        let rest = es.drop_first();
        assert forall|j: int| 0 <= j < i - 1 implies lex_order(k, #[trigger] rest[j].0) > 0 by {
            assert(rest[j] == es[j + 1]);
        }
        lemma_upsert_at(rest, k, v, i - 1);
        assert(es.take(i) =~= seq![es[0]] + rest.take(i - 1));
        assert(es.skip(i) =~= rest.skip(i - 1));
        if i < es.len() && es[i].0 == k {
            assert(es.skip(i + 1) =~= rest.skip(i));
            assert(rest[i - 1] == es[i]);
            assert(es.take(i) + seq![(k, v)] + es.skip(i + 1) =~= seq![es[0]] + (rest.take(i - 1) + seq![(k, v)] + rest.skip(i)));
        } else {
            if i < es.len() {
                assert(rest[i - 1] == es[i]);
            }
            assert(es.take(i) + seq![(k, v)] + es.skip(i) =~= seq![es[0]] + (rest.take(i - 1) + seq![(k, v)] + rest.skip(i - 1)));
        }
    }
}

/// Store `value` under `key` in entries kept in ascending key order.
fn upsert_entry(entries: &mut Vec<(String, FrontmatterValue)>, key: String, value: FrontmatterValue)
    ensures
        entries_view(final(entries)@) == upsert(entries_view(old(entries)@), key@, value.view()),
{
    let ghost es = entries_view(entries@);
    let ghost k = key@;
    let ghost v = value.view();
    proof {
        lemma_entries_view_index(entries@);
    }
    let mut i: usize = 0;
    while i < entries.len()
        invariant
            i <= entries@.len(),
            es == entries_view(entries@),
            es.len() == entries@.len(),
            k == key@,
            forall|j: int| 0 <= j < entries@.len() ==> es[j] == ((#[trigger] entries@[j]).0@, entries@[j].1.view()),
            forall|j: int| 0 <= j < i ==> lex_order(k, #[trigger] es[j].0) > 0,
        ensures
            i <= entries@.len(),
            forall|j: int| 0 <= j < i ==> lex_order(k, #[trigger] es[j].0) > 0,
            i < entries@.len() ==> lex_order(k, es[i as int].0) <= 0,
        decreases entries@.len() - i,
    {
        let o = compare_str(key.as_str(), entries[i].0.as_str());
        if !matches!(o, Order::Greater) {
            break;
        }
        i = i + 1;
    }
    proof {
        lemma_upsert_at(es, k, v, i as int);
    }
    let ghost old_entries = entries@;
    let same = i < entries.len() && matches!(compare_str(key.as_str(), entries[i].0.as_str()), Order::Equal);
    if same {
        proof {
            lemma_lex_order_antisym(k, es[i as int].0);
        }
        let pair = (key, value);
        let ghost pv = pair;
        entries.set(i, pair);
        proof {
            assert(pv.0@ == k && pv.1.view() == v);
            lemma_entries_view_index(entries@);
            assert forall|j: int| 0 <= j < entries@.len() implies entries_view(entries@)[j] == (es.take(i as int) + seq![(k, v)] + es.skip(i + 1))[j] by {
                if j != i {
                    assert(entries@[j] == old_entries[j]);
                } else {
                    assert(entries@[j] == pv);
                }
            }
            assert(entries_view(entries@) =~= es.take(i as int) + seq![(k, v)] + es.skip(i + 1));
        }
    } else {
        proof {
            if i < old_entries.len() {
                lemma_lex_order_antisym(k, es[i as int].0);
            }
        }
        let pair = (key, value);
        let ghost pv = pair;
        entries.insert(i, pair);
        proof {
            assert(pv.0@ == k && pv.1.view() == v);
            lemma_entries_view_index(entries@);
            assert forall|j: int| 0 <= j < entries@.len() implies entries_view(entries@)[j] == (es.take(i as int) + seq![(k, v)] + es.skip(i as int))[j] by {
                if j < i {
                    assert(entries@[j] == old_entries[j]);
                } else if j == i {
                    assert(entries@[j] == pv);
                } else {
                    assert(entries@[j] == old_entries[j - 1]);
                }
            }
            assert(entries_view(entries@) =~= es.take(i as int) + seq![(k, v)] + es.skip(i as int));
        }
    }
}


/// The frontmatter value a YAML value gives.
fn convert_value(node: &YamlNode) -> (result: Result<FrontmatterValue, MarkdownError>)
    ensures
        match yaml_value(*node) {
            Ok(v) => result matches Ok(r) && r.view() == v,
            Err(e) => result == Err::<FrontmatterValue, MarkdownError>(e),
        },
    decreases node,
{
    match node {
        YamlNode::Null => Ok(FrontmatterValue::Null),
        YamlNode::Bool(b) => Ok(FrontmatterValue::Bool(*b)),
        YamlNode::Integer(n) => Ok(FrontmatterValue::Integer(*n)),
        YamlNode::Unsigned(n) => if *n <= i64::MAX as u64 {
            Ok(FrontmatterValue::Integer(*n as i64))
        } else {
            Err(MarkdownError::UnsupportedValue)
        },
        YamlNode::Float(bits) => Ok(FrontmatterValue::Float(*bits)),
        YamlNode::String(s) => Ok(FrontmatterValue::String(s.clone())),
        YamlNode::Sequence(items) => {
            proof {
                assert(decreases_to!(*node => node->Sequence_0));
            }
            match convert_values(items) {
                Ok(values) => Ok(FrontmatterValue::Sequence(values)),
                Err(e) => Err(e),
            }
        },
        YamlNode::Mapping(entries) => {
            proof {
                assert(decreases_to!(*node => node->Mapping_0));
            }
            match convert_entries(entries) {
                Ok(es) => Ok(FrontmatterValue::Mapping(es)),
                Err(e) => Err(e),
            }
        },
        YamlNode::Tagged(inner) => convert_value(inner),
    }
}

/// The frontmatter values of YAML items, or the first refusal among them.
fn convert_values(items: &Vec<YamlNode>) -> (result: Result<Vec<FrontmatterValue>, MarkdownError>)
    ensures
        match yaml_values(items@) {
            Ok(vs) => result matches Ok(r) && values_view(r@) == vs,
            Err(e) => result == Err::<Vec<FrontmatterValue>, MarkdownError>(e),
        },
    decreases items,
{
    let mut out: Vec<FrontmatterValue> = Vec::new();
    let mut i: usize = 0;
    proof {
        assert(items@.skip(0) =~= items@);
    }
    while i < items.len()
        invariant
            i <= items@.len(),
            yaml_values(items@) == match yaml_values(items@.skip(i as int)) {
                Ok(rest) => Ok(values_view(out@) + rest),
                Err(e) => Err(e),
            },
        decreases items@.len() - i,
    {
        proof {
            assert(decreases_to!(*items => items@));
            assert(decreases_to!(items@ => items@[i as int]));
            assert(items@.skip(i as int)[0] == items@[i as int]);
            assert(items@.skip(i as int).drop_first() =~= items@.skip(i + 1));
            lemma_values_view_index(out@);
        }
        let value = match convert_value(&items[i]) {
            Ok(v) => v,
            Err(e) => return Err(e),
        };
        let ghost old_out = out@;
        out.push(value);
        proof {
            lemma_values_view_index(out@);
            lemma_values_view_index(old_out);
            assert(out@ == old_out.push(value));
            assert forall|j: int| 0 <= j < out@.len() implies values_view(out@)[j] == (values_view(old_out) + seq![value.view()])[j] by {
                if j < old_out.len() {
                    assert(out@[j] == old_out[j]);
                }
            }
            assert(values_view(out@) =~= values_view(old_out) + seq![value.view()]);
            assert forall|rest: Seq<FrontmatterView>| values_view(old_out) + (seq![value.view()] + rest) == values_view(out@) + rest by {
                assert(values_view(old_out) + (seq![value.view()] + rest) =~= values_view(out@) + rest);
            }
        }
        i = i + 1;
    }
    proof {
        assert(items@.skip(i as int) =~= Seq::<YamlNode>::empty());
        assert(values_view(out@) + Seq::<FrontmatterView>::empty() =~= values_view(out@));
    }
    Ok(out)
}

/// The entries of a YAML mapping in ascending key order, a later entry
/// replacing an earlier one with the same key; or the first refusal.
fn convert_entries(entries: &Vec<(YamlNode, YamlNode)>) -> (result: Result<Vec<(String, FrontmatterValue)>, MarkdownError>)
    ensures
        match yaml_entries(entries@, Seq::empty()) {
            Ok(es) => result matches Ok(r) && entries_view(r@) == es,
            Err(e) => result == Err::<Vec<(String, FrontmatterValue)>, MarkdownError>(e),
        },
    decreases entries,
{
    let mut out: Vec<(String, FrontmatterValue)> = Vec::new();
    let mut i: usize = 0;
    proof {
        assert(entries@.skip(0) =~= entries@);
        assert(entries_view(out@) =~= Seq::<(Seq<char>, FrontmatterView)>::empty());
    }
    while i < entries.len()
        invariant
            i <= entries@.len(),
            yaml_entries(entries@, Seq::empty()) == yaml_entries(entries@.skip(i as int), entries_view(out@)),
        decreases entries@.len() - i,
    {
        proof {
            assert(decreases_to!(*entries => entries@));
            assert(decreases_to!(entries@ => entries@[i as int]));
            assert(decreases_to!(entries@[i as int] => entries@[i as int].1));
            assert(entries@.skip(i as int)[0] == entries@[i as int]);
            assert(entries@.skip(i as int).drop_first() =~= entries@.skip(i + 1));
        }
        let key = match &entries[i].0 {
            YamlNode::String(k) => k.clone(),
            _ => return Err(MarkdownError::NonStringKey),
        };
        let value = match convert_value(&entries[i].1) {
            Ok(v) => v,
            Err(e) => return Err(e),
        };
        upsert_entry(&mut out, key, value);
        i = i + 1;
    }
    proof {
        assert(entries@.skip(i as int) =~= Seq::<(YamlNode, YamlNode)>::empty());
    }
    Ok(out)
}

/// The frontmatter a YAML document gives, in ascending key order: none for
/// an empty document, the entries of a mapping with string keys (a later
/// entry replacing an earlier one with the same key), and a refusal for a
/// key that is not a string, a number beyond `i64`, or a document that is
/// not a mapping.
pub fn frontmatter_of_yaml(document: &YamlNode) -> (result: Result<Vec<(String, FrontmatterValue)>, MarkdownError>)
    ensures
        match yaml_frontmatter(*document) {
            Ok(es) => result matches Ok(r) && entries_view(r@) == es,
            Err(e) => result == Err::<Vec<(String, FrontmatterValue)>, MarkdownError>(e),
        },
{
    match document {
        YamlNode::Null => {
            let out: Vec<(String, FrontmatterValue)> = Vec::new();
            proof {
                assert(entries_view(out@) =~= Seq::<(Seq<char>, FrontmatterView)>::empty());
            }
            Ok(out)
        },
        YamlNode::Mapping(entries) => convert_entries(entries),
        _ => Err(MarkdownError::UnsupportedValue),
    }
}

} // verus!
