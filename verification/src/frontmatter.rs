//! Frontmatter as an ordered list of entries: looking keys up, setting them
//! in key order, and the entries every note carries.

use vstd::prelude::*;

use crate::domain::{
    entries_view, lemma_entries_view_index, lemma_values_view_index, values_view,
    FrontmatterValue, FrontmatterView,
};
use crate::text::{chars_of, eq_str, lex_order, strictly_sorted, string_views};

verus! {

/// The position of the first entry with key `key`, if any.
pub open spec fn first_entry(entries: Seq<(Seq<char>, FrontmatterView)>, key: Seq<char>) -> Option<int>
    decreases entries.len(),
{
    if entries.len() == 0 {
        None
    } else if entries[0].0 == key {
        Some(0)
    } else {
        match first_entry(entries.drop_first(), key) {
            Some(i) => Some(i + 1),
            None => None,
        }
    }
}

/// Where the first entry with a key lies.
pub proof fn lemma_first_entry(entries: Seq<(Seq<char>, FrontmatterView)>, key: Seq<char>)
    ensures
        first_entry(entries, key) matches Some(i) ==> 0 <= i < entries.len() && entries[i].0 == key
            && forall|j: int| 0 <= j < i ==> entries[j].0 != key,
        first_entry(entries, key) is None ==> forall|j: int| 0 <= j < entries.len() ==> entries[j].0 != key,
    decreases entries.len(),
{
    if entries.len() > 0 && entries[0].0 != key {
        lemma_first_entry(entries.drop_first(), key);
        assert forall|j: int| 1 <= j < entries.len() implies entries[j] == entries.drop_first()[j - 1] by {}
    }
}

/// The position of the first entry with key `key`.
pub fn find_entry(entries: &Vec<(String, FrontmatterValue)>, key: &str) -> (result: Option<usize>)
    ensures
        match result {
            Some(i) => first_entry(entries_view(entries@), key@) == Some(i as int) && i < entries@.len(),
            None => first_entry(entries_view(entries@), key@) is None,
        },
{
    let ghost v = entries_view(entries@);
    proof {
        lemma_entries_view_index(entries@);
        lemma_first_entry(v, key@);
    }
    let mut i: usize = 0;
    while i < entries.len()
        invariant
            i <= entries@.len(),
            v == entries_view(entries@),
            v.len() == entries@.len(),
            forall|j: int| 0 <= j < entries@.len() ==> v[j] == ((#[trigger] entries@[j]).0@, entries@[j].1.view()),
            forall|j: int| 0 <= j < i ==> v[j].0 != key@,
            first_entry(v, key@) matches Some(k) ==> 0 <= k < v.len() && v[k].0 == key@
                && forall|j: int| 0 <= j < k ==> v[j].0 != key@,
            first_entry(v, key@) is None ==> forall|j: int| 0 <= j < v.len() ==> v[j].0 != key@,
        decreases entries@.len() - i,
    {
        let name = chars_of(entries[i].0.as_str());
        if eq_str(name.as_slice(), key) {
            assert(v[i as int].0 == key@);
            return Some(i);
        }
        i = i + 1;
    }
    None
}

/// The keys of some entries, in order.
pub open spec fn entry_keys(entries: Seq<(Seq<char>, FrontmatterView)>) -> Seq<Seq<char>> {
    entries.map_values(|e: (Seq<char>, FrontmatterView)| e.0)
}

/// What some entries map each key to.
pub open spec fn entries_map(entries: Seq<(Seq<char>, FrontmatterView)>) -> Map<Seq<char>, FrontmatterView> {
    Map::new(
        |k: Seq<char>| entry_keys(entries).contains(k),
        |k: Seq<char>| entries[entry_keys(entries).index_of(k)].1,
    )
}

/// Whether frontmatter keys are in strictly ascending order, as a map from
/// keys to values keeps them.
pub open spec fn keys_ordered(entries: Seq<(String, FrontmatterValue)>) -> bool {
    strictly_sorted(entry_keys(entries_view(entries)))
}

/// The keys of some frontmatter.
fn key_strings(entries: &Vec<(String, FrontmatterValue)>) -> (result: Vec<String>)
    ensures
        string_views(result@) == entry_keys(entries_view(entries@)),
{
    proof {
        lemma_entries_view_index(entries@);
    }
    let mut keys: Vec<String> = Vec::new();
    let mut i: usize = 0;
    while i < entries.len()
        invariant
            i <= entries@.len(),
            entries_view(entries@).len() == entries@.len(),
            forall|j: int| 0 <= j < entries@.len() ==> entries_view(entries@)[j] == ((#[trigger] entries@[j]).0@, entries@[j].1.view()),
            string_views(keys@) == entry_keys(entries_view(entries@)).take(i as int),
            keys@.len() == i,
        decreases entries@.len() - i,
    {
        let ghost before = keys@;
        keys.push(entries[i].0.clone());
        proof {
            assert(entries_view(entries@)[i as int] == (entries@[i as int].0@, entries@[i as int].1.view()));
            assert(keys@ == before.push(keys@[i as int]));
            assert(string_views(keys@) =~= entry_keys(entries_view(entries@)).take(i + 1));
        }
        i = i + 1;
    }
    assert(entry_keys(entries_view(entries@)).take(i as int) =~= entry_keys(entries_view(entries@)));
    keys
}

/// Store `value` under `key`, in key order, replacing what was there.
pub fn set_entry(entries: &mut Vec<(String, FrontmatterValue)>, key: String, value: FrontmatterValue)
    requires
        keys_ordered(old(entries)@),
    ensures
        keys_ordered(final(entries)@),
        entries_map(entries_view(final(entries)@)) == entries_map(entries_view(old(entries)@)).insert(key@, value.view()),
{
    let ghost old_entries = entries@;
    let ghost old_view = entries_view(entries@);
    let ghost old_keys = entry_keys(old_view);
    let ghost k = key@;
    let ghost v = value.view();
    proof {
        lemma_entries_view_index(entries@);
        crate::text::lemma_sorted_no_duplicates(old_keys);
    }
    let keys = key_strings(entries);
    match crate::text::find_string(&keys, key.as_str()) {
        Some(i) => {
            let pair = (key, value);
            let ghost pv = pair;
            entries.set(i, pair);
            proof {
                assert(entries@[i as int] == pv);
                assert(pv.0@ == k && pv.1.view() == v);
                lemma_entries_view_index(entries@);
                let nv = entries_view(entries@);
                assert(nv =~= old_view.update(i as int, (k, v))) by {
                    assert forall|j: int| 0 <= j < nv.len() implies nv[j] == old_view.update(i as int, (k, v))[j] by {
                        if j != i {
                            assert(entries@[j] == old_entries[j]);
                        }
                    }
                }
                assert(old_keys[i as int] == k);
                assert(entry_keys(nv) =~= old_keys);
                assert(old_keys.contains(k));
                assert forall|q: Seq<char>| #[trigger] entries_map(nv).contains_key(q) implies entries_map(nv)[q]
                    == entries_map(old_view).insert(k, v)[q] by {
                    old_keys.index_of_first_ensures(q);
                }
                assert(entries_map(nv) =~= entries_map(old_view).insert(k, v));
            }
        },
        None => {
            let position = crate::text::sorted_position(&keys, key.as_str());
            let pair = (key, value);
            let ghost pv = pair;
            entries.insert(position, pair);
            proof {
                assert(entries@[position as int] == pv);
                assert(pv.0@ == k && pv.1.view() == v);
                lemma_entries_view_index(entries@);
                let nv = entries_view(entries@);
                assert(nv =~= old_view.insert(position as int, (k, v))) by {
                    assert forall|j: int| 0 <= j < nv.len() implies nv[j] == old_view.insert(position as int, (k, v))[j] by {
                        if j < position {
                            assert(entries@[j] == old_entries[j]);
                        } else if j > position {
                            assert(entries@[j] == old_entries[j - 1]);
                        }
                    }
                }
                assert(entry_keys(nv) =~= old_keys.insert(position as int, k));
                crate::text::lemma_sorted_insert(old_keys, position as int, k);
                assert forall|q: Seq<char>| #[trigger] entries_map(nv).contains_key(q) implies entries_map(nv)[q]
                    == entries_map(old_view).insert(k, v)[q] by {
                    crate::text::lemma_index_of_insert(old_keys, position as int, k, q);
                }
                assert forall|q: Seq<char>| #[trigger] entries_map(old_view).insert(k, v).contains_key(q) implies entries_map(nv).contains_key(q) by {
                    crate::text::lemma_index_of_insert(old_keys, position as int, k, q);
                }
                assert(entries_map(nv) =~= entries_map(old_view).insert(k, v));
            }
        },
    }
}

/// With keys free of repetition, the first entry with a key is the one the
/// map holds for it.
pub proof fn lemma_first_entry_map(entries: Seq<(Seq<char>, FrontmatterView)>, key: Seq<char>)
    requires
        entry_keys(entries).no_duplicates(),
    ensures
        first_entry(entries, key) matches Some(i) ==> entries_map(entries).contains_key(key)
            && entries_map(entries)[key] == entries[i].1,
        first_entry(entries, key) is None ==> !entries_map(entries).contains_key(key),
{
    lemma_first_entry(entries, key);
    let keys = entry_keys(entries);
    match first_entry(entries, key) {
        Some(i) => {
            assert(keys[i] == key);
            assert(keys.contains(key));
            keys.index_of_first_ensures(key);
        },
        None => {
            if keys.contains(key) {
                let j = choose|j: int| 0 <= j < keys.len() && keys[j] == key;
                assert(entries[j].0 == key);
            }
        },
    }
}

/// Whether a value is a list or text.
pub open spec fn list_or_text(v: FrontmatterView) -> bool {
    v is Sequence || v is Text
}

/// The frontmatter every note carries: its identifier and creation time,
/// and, where missing or of another kind, empty `tags`, the title
/// `Untitled` and the type `note`.
pub open spec fn required_spec(
    m: Map<Seq<char>, FrontmatterView>,
    id: Seq<char>,
    created: Seq<char>,
) -> Map<Seq<char>, FrontmatterView> {
    let m1 = m.insert("id"@, FrontmatterView::Text(id)).insert("created"@, FrontmatterView::Text(created));
    let m2 = if m1.contains_key("tags"@) && list_or_text(m1["tags"@]) {
        m1
    } else {
        m1.insert("tags"@, FrontmatterView::Sequence(Seq::empty()))
    };
    let m3 = if m2.contains_key("title"@) && m2["title"@] is Text {
        m2
    } else {
        m2.insert("title"@, FrontmatterView::Text("Untitled"@))
    };
    if m3.contains_key("type"@) && m3["type"@] is Text {
        m3
    } else {
        m3.insert("type"@, FrontmatterView::Text("note"@))
    }
}

/// What every note's frontmatter ends up with: the given identifier and
/// creation time; the tags it had where they are a list or text, and an
/// empty list otherwise; its title and type where they are text, and
/// `Untitled` and `note` otherwise; every other field as it was.
pub proof fn lemma_required_fields(m: Map<Seq<char>, FrontmatterView>, id: Seq<char>, created: Seq<char>)
    ensures
        required_spec(m, id, created)["id"@] == FrontmatterView::Text(id),
        required_spec(m, id, created)["created"@] == FrontmatterView::Text(created),
        m.contains_key("tags"@) && (m["tags"@] is Sequence || m["tags"@] is Text) ==> required_spec(m, id, created)["tags"@]
            == m["tags"@],
        !(m.contains_key("tags"@) && (m["tags"@] is Sequence || m["tags"@] is Text)) ==> required_spec(m, id, created)["tags"@]
            == FrontmatterView::Sequence(Seq::empty()),
        m.contains_key("title"@) && m["title"@] is Text ==> required_spec(m, id, created)["title"@] == m["title"@],
        !(m.contains_key("title"@) && m["title"@] is Text) ==> required_spec(m, id, created)["title"@]
            == FrontmatterView::Text("Untitled"@),
        m.contains_key("type"@) && m["type"@] is Text ==> required_spec(m, id, created)["type"@] == m["type"@],
        !(m.contains_key("type"@) && m["type"@] is Text) ==> required_spec(m, id, created)["type"@]
            == FrontmatterView::Text("note"@),
        required_spec(m, id, created).dom() == m.dom().insert("id"@).insert("created"@).insert("tags"@).insert(
            "title"@,
        ).insert("type"@),
        forall|k: Seq<char>|
            k != "id"@ && k != "created"@ && k != "tags"@ && k != "title"@ && k != "type"@ && m.contains_key(k)
                ==> #[trigger] required_spec(m, id, created)[k] == m[k],
{
    reveal_strlit("id");
    reveal_strlit("created");
    reveal_strlit("tags");
    reveal_strlit("title");
    reveal_strlit("type");
    assert("id"@.len() == 2 && "created"@.len() == 7 && "tags"@.len() == 4 && "title"@.len() == 5 && "type"@.len() == 4);
    assert("tags"@[0] != "type"@[1] || "tags"@[1] != "type"@[1]);
    assert("tags"@ != "type"@);
    assert(required_spec(m, id, created).dom() =~= m.dom().insert("id"@).insert("created"@).insert("tags"@).insert(
        "title"@,
    ).insert("type"@));
}

/// Whether the entry under `key` is there and satisfies the kind test:
/// list or text when `list_ok`, text otherwise.
fn entry_has_kind(entries: &Vec<(String, FrontmatterValue)>, key: &str, list_ok: bool) -> (result: bool)
    requires
        keys_ordered(entries@),
    ensures
        result == (entries_map(entries_view(entries@)).contains_key(key@) && if list_ok {
            list_or_text(entries_map(entries_view(entries@))[key@])
        } else {
            entries_map(entries_view(entries@))[key@] is Text
        }),
{
    proof {
        lemma_entries_view_index(entries@);
        crate::text::lemma_sorted_no_duplicates(entry_keys(entries_view(entries@)));
        lemma_first_entry_map(entries_view(entries@), key@);
    }
    match find_entry(entries, key) {
        Some(i) => match &entries[i].1 {
            FrontmatterValue::String(_) => true,
            FrontmatterValue::Sequence(_) => list_ok,
            _ => false,
        },
        None => false,
    }
}

/// Add what every note's frontmatter carries.
pub fn required_frontmatter(frontmatter: Vec<(String, FrontmatterValue)>, id: &str, created: &str) -> (result: Vec<(String, FrontmatterValue)>)
    requires
        keys_ordered(frontmatter@),
    ensures
        keys_ordered(result@),
        entries_map(entries_view(result@)) == required_spec(entries_map(entries_view(frontmatter@)), id@, created@),
{
    proof {
        reveal_strlit("id");
        reveal_strlit("created");
        reveal_strlit("tags");
        reveal_strlit("title");
        reveal_strlit("type");
        reveal_strlit("Untitled");
        reveal_strlit("note");
    }
    let mut f = frontmatter;
    set_entry(&mut f, "id".to_owned(), FrontmatterValue::String(id.to_owned()));
    set_entry(&mut f, "created".to_owned(), FrontmatterValue::String(created.to_owned()));
    if !entry_has_kind(&f, "tags", true) {
        let empty: Vec<FrontmatterValue> = Vec::new();
        proof {
            assert(values_view(empty@) =~= Seq::<FrontmatterView>::empty());
        }
        set_entry(&mut f, "tags".to_owned(), FrontmatterValue::Sequence(empty));
    }
    if !entry_has_kind(&f, "title", false) {
        set_entry(&mut f, "title".to_owned(), FrontmatterValue::String("Untitled".to_owned()));
    }
    if !entry_has_kind(&f, "type", false) {
        set_entry(&mut f, "type".to_owned(), FrontmatterValue::String("note".to_owned()));
    }
    f
}

/// The text items of a list, in order.
pub open spec fn text_items(items: Seq<FrontmatterView>) -> Seq<Seq<char>>
    decreases items.len(),
{
    if items.len() == 0 {
        Seq::empty()
    } else {
        match items[0] {
            FrontmatterView::Text(t) => seq![t] + text_items(items.drop_first()),
            _ => text_items(items.drop_first()),
        }
    }
}

/// The tags of some frontmatter: the text items of its `tags` list.
pub open spec fn tags_spec(m: Map<Seq<char>, FrontmatterView>) -> Seq<Seq<char>> {
    if m.contains_key("tags"@) {
        match m["tags"@] {
            FrontmatterView::Sequence(items) => text_items(items),
            _ => Seq::empty(),
        }
    } else {
        Seq::empty()
    }
}

/// The tags of some frontmatter.
pub fn tags(frontmatter: &Vec<(String, FrontmatterValue)>) -> (result: Vec<&str>)
    requires
        keys_ordered(frontmatter@),
    ensures
        result@.map_values(|t: &str| t@) == tags_spec(entries_map(entries_view(frontmatter@))),
{
    proof {
        reveal_strlit("tags");
        lemma_entries_view_index(frontmatter@);
        crate::text::lemma_sorted_no_duplicates(entry_keys(entries_view(frontmatter@)));
        lemma_first_entry_map(entries_view(frontmatter@), "tags"@);
    }
    let mut out: Vec<&str> = Vec::new();
    match find_entry(frontmatter, "tags") {
        Some(k) => match &frontmatter[k].1 {
            FrontmatterValue::Sequence(items) => {
                let ghost views = values_view(items@);
                proof {
                    lemma_values_view_index(items@);
                    assert(views.skip(0) =~= views);
                }
                let mut i: usize = 0;
                while i < items.len()
                    invariant
                        i <= items@.len(),
                        views == values_view(items@),
                        views.len() == items@.len(),
                        forall|j: int| 0 <= j < items@.len() ==> views[j] == (#[trigger] items@[j]).view(),
                        out@.map_values(|t: &str| t@) + text_items(views.skip(i as int)) == text_items(views),
                    decreases items@.len() - i,
                {
                    let ghost before = out@;
                    proof {
                        assert(views.skip(i as int).drop_first() =~= views.skip(i + 1));
                        assert(views.skip(i as int)[0] == items@[i as int].view());
                    }
                    match &items[i] {
                        FrontmatterValue::String(t) => {
                            out.push(t.as_str());
                            proof {
                                assert(out@.map_values(|t: &str| t@) =~= before.map_values(|t: &str| t@).push(t@));
                            }
                        },
                        _ => {},
                    }
                    i = i + 1;
                }
                proof {
                    assert(views.skip(i as int) =~= Seq::<FrontmatterView>::empty());
                    assert(out@.map_values(|t: &str| t@) =~= text_items(views));
                }
            },
            _ => {
                proof {
                    assert(out@.map_values(|t: &str| t@) =~= Seq::<Seq<char>>::empty());
                }
            },
        },
        None => {
            proof {
                assert(out@.map_values(|t: &str| t@) =~= Seq::<Seq<char>>::empty());
            }
        },
    }
    out
}

} // verus!
