//! A map from strings to strings that keeps its keys in ascending order.

use vstd::prelude::*;

use crate::text::{
    find_string, lemma_index_of_insert, lemma_lex_order_antisym, lemma_lex_order_trans,
    lemma_sorted_insert, lemma_sorted_no_duplicates, lex_order, sorted_position, string_views,
    strictly_sorted,
};

verus! {

/// The keys of a finite map in ascending order.
pub open spec fn sorted_keys(m: Map<Seq<char>, Seq<char>>) -> Seq<Seq<char>> {
    choose|keys: Seq<Seq<char>>| strictly_sorted(keys) && keys.to_set() == m.dom()
}

/// Two strictly sorted sequences with the same elements are equal.
pub proof fn lemma_sorted_sequences_unique(s: Seq<Seq<char>>, t: Seq<Seq<char>>)
    requires
        strictly_sorted(s),
        strictly_sorted(t),
        s.to_set() == t.to_set(),
    ensures
        s == t,
    decreases s.len(),
{
    if s.len() == 0 {
        if t.len() > 0 {
            assert(t.to_set().contains(t[0]));
        }
        assert(s =~= t);
    } else if t.len() == 0 {
        assert(s.to_set().contains(s[0]));
    } else {
        assert(s.to_set().contains(s[0]));
        assert(t.to_set().contains(t[0]));
        let i = choose|i: int| 0 <= i < t.len() && t[i] == s[0];
        let j = choose|j: int| 0 <= j < s.len() && s[j] == t[0];
        if i != 0 {
            assert(lex_order(t[0], t[i]) < 0);
            if j != 0 {
                assert(lex_order(s[0], s[j]) < 0);
                lemma_lex_order_antisym(t[0], s[0]);
            } else {
                lemma_lex_order_antisym(t[0], t[0]);
            }
        }
        assert(s[0] == t[0]);
        let s1 = s.drop_first();
        let t1 = t.drop_first();
        assert forall|x: Seq<char>| s1.to_set().contains(x) implies t1.to_set().contains(x) by {
            let a = choose|a: int| 0 <= a < s1.len() && s1[a] == x;
            assert(s.to_set().contains(x));
            let b = choose|b: int| 0 <= b < t.len() && t[b] == x;
            assert(lex_order(s[0], s[a + 1]) < 0);
            if b == 0 {
                lemma_lex_order_antisym(s[0], s[0]);
            }
            assert(t1[b - 1] == x);
        }
        assert forall|x: Seq<char>| t1.to_set().contains(x) implies s1.to_set().contains(x) by {
            let a = choose|a: int| 0 <= a < t1.len() && t1[a] == x;
            assert(t.to_set().contains(x));
            let b = choose|b: int| 0 <= b < s.len() && s[b] == x;
            assert(lex_order(t[0], t[a + 1]) < 0);
            if b == 0 {
                lemma_lex_order_antisym(t[0], t[0]);
            }
            assert(s1[b - 1] == x);
        }
        assert(s1.to_set() =~= t1.to_set());
        lemma_sorted_sequences_unique(s1, t1);
        assert(s =~= seq![s[0]] + s1);
        assert(t =~= seq![t[0]] + t1);
    }
}

/// Strings mapped to strings, kept in ascending order of key.
#[derive(Debug, PartialEq, Eq)]
pub struct TextMap {
    keys: Vec<String>,
    values: Vec<String>,
}

impl TextMap {
    /// The keys, in ascending order.
    pub closed spec fn key_seq(self) -> Seq<Seq<char>> {
        string_views(self.keys@)
    }

    /// The values, in the order of their keys.
    pub closed spec fn value_seq(self) -> Seq<Seq<char>> {
        string_views(self.values@)
    }

    pub closed spec fn view(self) -> Map<Seq<char>, Seq<char>> {
        Map::new(
            |k: Seq<char>| self.key_seq().contains(k),
            |k: Seq<char>| self.value_seq()[self.key_seq().index_of(k)],
        )
    }

    pub closed spec fn wf(self) -> bool {
        &&& strictly_sorted(self.key_seq())
        &&& self.keys@.len() == self.values@.len()
    }

    /// What a well-formed map holds, entry by entry.
    pub proof fn lemma_entries(self)
        requires
            self.wf(),
        ensures
            self.key_seq().len() == self.value_seq().len(),
            strictly_sorted(self.key_seq()),
            self.key_seq() == sorted_keys(self.view()),
            self.key_seq().to_set() == self.view().dom(),
            forall|i: int|
                0 <= i < self.key_seq().len() ==> #[trigger] self.view()[self.key_seq()[i]]
                    == self.value_seq()[i],
    {
        let keys = self.key_seq();
        lemma_sorted_no_duplicates(keys);
        assert forall|i: int| 0 <= i < keys.len() implies #[trigger] self.view()[keys[i]]
            == self.value_seq()[i] by {
            assert(keys.contains(keys[i]));
            keys.index_of_first_ensures(keys[i]);
        }
        assert(keys.to_set() =~= self.view().dom());
        let chosen = sorted_keys(self.view());
        assert(strictly_sorted(chosen) && chosen.to_set() == self.view().dom());
        lemma_sorted_sequences_unique(keys, chosen);
    }

    pub fn new() -> (result: TextMap)
        ensures
            result.wf(),
            result.view() == Map::<Seq<char>, Seq<char>>::empty(),
    {
        let result = TextMap { keys: Vec::new(), values: Vec::new() };
        proof {
            assert(result.view() =~= Map::<Seq<char>, Seq<char>>::empty());
        }
        result
    }

    /// The number of entries.
    pub fn len(&self) -> (result: usize)
        requires
            self.wf(),
        ensures
            result == self.key_seq().len(),
    {
        self.keys.len()
    }

    /// The key of entry `i`, in ascending order.
    pub fn key_at(&self, i: usize) -> (result: &String)
        requires
            self.wf(),
            i < self.key_seq().len(),
        ensures
            result@ == self.key_seq()[i as int],
    {
        &self.keys[i]
    }

    /// The value of entry `i`, in ascending order of key.
    pub fn value_at(&self, i: usize) -> (result: &String)
        requires
            self.wf(),
            i < self.key_seq().len(),
        ensures
            result@ == self.value_seq()[i as int],
    {
        &self.values[i]
    }

    /// The value stored under `key`.
    pub fn get(&self, key: &str) -> (result: Option<&String>)
        requires
            self.wf(),
        ensures
            result is None <==> !self.view().contains_key(key@),
            result matches Some(v) ==> v@ == self.view()[key@],
    {
        match find_string(&self.keys, key) {
            Some(i) => {
                proof {
                    self.lemma_entries();
                    assert(self.key_seq()[i as int] == key@);
                }
                Some(&self.values[i])
            },
            None => None,
        }
    }

    /// Store `value` under `key`, replacing what was there.
    pub fn insert(&mut self, key: String, value: String)
        requires
            old(self).wf(),
        ensures
            final(self).wf(),
            final(self).view() == old(self).view().insert(key@, value@),
    {
        let ghost old_keys = self.key_seq();
        let ghost old_values = self.value_seq();
        let ghost old_view = self.view();
        proof {
            lemma_sorted_no_duplicates(old_keys);
        }
        match find_string(&self.keys, key.as_str()) {
            Some(i) => {
                self.values.set(i, value);
                proof {
                    assert(self.key_seq() == old_keys);
                    assert(self.value_seq() =~= old_values.update(i as int, value@));
                    assert forall|k: Seq<char>| #[trigger] self.view().contains_key(k) implies self.view()[k]
                        == old_view.insert(key@, value@)[k] by {
                        old_keys.index_of_first_ensures(k);
                        if k == key@ {
                            assert(old_keys[i as int] == key@);
                            assert(old_keys.contains(key@));
                        }
                    }
                    assert(old_keys.contains(key@)) by {
                        assert(old_keys[i as int] == key@);
                    }
                    assert(self.view() =~= old_view.insert(key@, value@));
                }
            },
            None => {
                let position = sorted_position(&self.keys, key.as_str());
                let ghost k = key@;
                self.keys.insert(position, key);
                self.values.insert(position, value);
                proof {
                    assert(self.key_seq() =~= old_keys.insert(position as int, k));
                    assert(self.value_seq() =~= old_values.insert(position as int, value@));
                    lemma_sorted_insert(old_keys, position as int, k);
                    assert forall|q: Seq<char>| #[trigger] self.view().contains_key(q) implies self.view()[q]
                        == old_view.insert(k, value@)[q] by {
                        lemma_index_of_insert(old_keys, position as int, k, q);
                    }
                    assert forall|q: Seq<char>| #[trigger] old_view.insert(k, value@).contains_key(q) implies self.view().contains_key(q) by {
                        if q != k {
                            lemma_index_of_insert(old_keys, position as int, k, q);
                        } else {
                            lemma_index_of_insert(old_keys, position as int, k, k);
                        }
                    }
                    assert(self.view() =~= old_view.insert(k, value@));
                }
            },
        }
    }

    /// A copy with the same entries.
    pub fn duplicate(&self) -> (result: TextMap)
        requires
            self.wf(),
        ensures
            result.wf(),
            result.key_seq() == self.key_seq(),
            result.value_seq() == self.value_seq(),
            result.view() == self.view(),
    {
        let keys = crate::text::clone_strings(&self.keys);
        let values = crate::text::clone_strings(&self.values);
        let result = TextMap { keys, values };
        proof {
            assert(result.key_seq() == self.key_seq());
            assert(result.value_seq() == self.value_seq());
            assert(result.view() =~= self.view());
        }
        result
    }
}

} // verus!
