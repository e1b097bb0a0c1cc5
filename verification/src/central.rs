//! The item rules of the central workspace served over HTTP: where an item
//! is materialized, how a patch combines with the visible revision, and
//! which revision a change or a deletion commits.

use vstd::prelude::*;

use crate::domain::{
    entries_view, lemma_entries_view_index, ActorId, FrontmatterValue, FrontmatterView, Note,
    NoteId, NoteRevision, RevisionId, SchemaVersion,
};
use crate::frontmatter::{find_entry, first_entry};
use crate::hlc::Hlc;
use crate::markdown::{canonical_note_path, canonical_path_spec};
use crate::text::{eq_str, chars_of, insert_sorted, strictly_sorted, string_views};

verus! {

/// Why a change to an item is refused.
#[derive(Clone, Copy, Debug, PartialEq, Eq)]
pub enum ItemError {
    FrontmatterIdMismatch,
}

impl ItemError {
    /// The error's text.
    pub fn message(&self) -> (result: String)
        ensures
            result@ == "frontmatter id must match the item id"@,
    {
        "frontmatter id must match the item id".to_owned()
    }
}

/// The title of some frontmatter: the text under its `title` key.
pub open spec fn title_of(entries: Seq<(Seq<char>, FrontmatterView)>) -> Option<Seq<char>> {
    match first_entry(entries, "title"@) {
        Some(i) => match entries[i].1 {
            FrontmatterView::Text(t) => Some(t),
            _ => None,
        },
        None => None,
    }
}

/// The title of some frontmatter, if it is text.
pub fn frontmatter_title(frontmatter: &Vec<(String, FrontmatterValue)>) -> (result: Option<&str>)
    ensures
        match result {
            Some(t) => title_of(entries_view(frontmatter@)) == Some(t@),
            None => title_of(entries_view(frontmatter@)) is None,
        },
{
    proof {
        lemma_entries_view_index(frontmatter@);
    }
    match find_entry(frontmatter, "title") {
        Some(i) => match &frontmatter[i].1 {
            FrontmatterValue::String(t) => Some(t.as_str()),
            _ => None,
        },
        None => None,
    }
}

/// The projection path of a note: by its identifier and its title, or
/// `untitled` when it has none.
pub fn note_path(id: &NoteId, frontmatter: &Vec<(String, FrontmatterValue)>) -> (result: String)
    ensures
        result@ == canonical_path_spec(id.0@, title_of(entries_view(frontmatter@))),
{
    canonical_note_path(id, frontmatter_title(frontmatter))
}

/// Whether frontmatter names another item: its `id` key holds something
/// other than the text `id`.
pub open spec fn names_other_item(entries: Seq<(Seq<char>, FrontmatterView)>, id: Seq<char>) -> bool {
    match first_entry(entries, "id"@) {
        Some(i) => !(entries[i].1 matches FrontmatterView::Text(t) && t == id),
        None => false,
    }
}

/// The note an item becomes when patched: the given frontmatter and body in
/// place of the visible revision's, at the visible revision's path. A patch
/// whose frontmatter names another item is refused.
pub fn patched_note(
    note_id: &NoteId,
    existing: NoteRevision,
    frontmatter: Option<Vec<(String, FrontmatterValue)>>,
    body: Option<String>,
) -> (result: Result<Note, ItemError>)
    ensures
        names_other_item(
            entries_view(
                match frontmatter {
                    Some(f) => f@,
                    None => existing.frontmatter@,
                },
            ),
            note_id.0@,
        ) <==> result is Err,
        result matches Ok(note) ==> {
            &&& note.id.0@ == note_id.0@
            &&& note.frontmatter == match frontmatter {
                Some(f) => f,
                None => existing.frontmatter,
            }
            &&& note.body == match body {
                Some(b) => b,
                None => existing.body,
            }
            &&& note.path == existing.materialized_path
        },
{
    let chosen = match frontmatter {
        Some(f) => f,
        None => existing.frontmatter,
    };
    let text = match body {
        Some(b) => b,
        None => existing.body,
    };
    proof {
        lemma_entries_view_index(chosen@);
    }
    match find_entry(&chosen, "id") {
        Some(i) => {
            let same = match &chosen[i].1 {
                FrontmatterValue::String(t) => *t == note_id.0,
                _ => false,
            };
            if !same {
                return Err(ItemError::FrontmatterIdMismatch);
            }
        },
        None => {},
    }
    Ok(Note { id: NoteId(note_id.0.clone()), frontmatter: chosen, body: text, path: existing.materialized_path })
}

/// The identifiers of a sequence of revision identifiers.
pub open spec fn revision_views(ids: Seq<RevisionId>) -> Seq<Seq<char>> {
    ids.map_values(|r: RevisionId| r.0@)
}

/// The revision that commits `note` over the winning revision `winner` and
/// the revisions still in conflict with it, which all become its
/// predecessors, in ascending order.
pub fn item_revision(
    note: &Note,
    deleted: bool,
    winner: &RevisionId,
    concurrent: &[RevisionId],
    hlc: Hlc,
    author_id: ActorId,
) -> (result: NoteRevision)
    ensures
        result.schema.0 == 1,
        result.note_id.0@ == note.id.0@,
        entries_view(result.frontmatter@) == entries_view(note.frontmatter@),
        result.body@ == note.body@,
        result.materialized_path@ == canonical_path_spec(note.id.0@, title_of(entries_view(note.frontmatter@))),
        result.hlc == hlc,
        result.author_id == author_id,
        result.deleted == deleted,
        strictly_sorted(revision_views(result.predecessors@)),
        revision_views(result.predecessors@).to_set() == revision_views(concurrent@).to_set().insert(winner.0@),
{
    let mut ids: Vec<String> = Vec::new();
    proof {
        assert(string_views(ids@) =~= Seq::<Seq<char>>::empty());
    }
    insert_sorted(&mut ids, winner.0.clone());
    let mut i: usize = 0;
    while i < concurrent.len()
        invariant
            i <= concurrent@.len(),
            strictly_sorted(string_views(ids@)),
            string_views(ids@).to_set() == revision_views(concurrent@.take(i as int)).to_set().insert(winner.0@),
        decreases concurrent@.len() - i,
    {
        insert_sorted(&mut ids, concurrent[i].0.clone());
        proof {
            assert(revision_views(concurrent@.take(i + 1)) =~= revision_views(concurrent@.take(i as int)).push(concurrent@[i as int].0@));
            revision_views(concurrent@.take(i as int)).lemma_push_to_set_commute(concurrent@[i as int].0@);
            assert(revision_views(concurrent@.take(i + 1)).to_set() =~= revision_views(concurrent@.take(i as int)).to_set().insert(concurrent@[i as int].0@));
            assert(string_views(ids@).to_set() =~= revision_views(concurrent@.take(i + 1)).to_set().insert(winner.0@));
        }
        i = i + 1;
    }
    proof {
        assert(concurrent@.take(i as int) =~= concurrent@);
    }
    let mut predecessors: Vec<RevisionId> = Vec::new();
    let mut k: usize = 0;
    while k < ids.len()
        invariant
            k <= ids@.len(),
            revision_views(predecessors@) == string_views(ids@).take(k as int),
        decreases ids@.len() - k,
    {
        let ghost before = predecessors@;
        let id = ids[k].clone();
        predecessors.push(RevisionId(id));
        proof {
            assert(predecessors@ == before.push(RevisionId(id)));
            assert(revision_views(predecessors@) =~= revision_views(before).push(ids@[k as int]@));
            assert(string_views(ids@).take(k + 1) =~= string_views(ids@).take(k as int).push(ids@[k as int]@));
        }
        k = k + 1;
    }
    proof {
        assert(string_views(ids@).take(k as int) =~= string_views(ids@));
    }
    let path = note_path(&note.id, &note.frontmatter);
    NoteRevision {
        schema: SchemaVersion(1),
        note_id: NoteId(note.id.0.clone()),
        frontmatter: crate::domain::copy_entries(&note.frontmatter),
        body: note.body.clone(),
        materialized_path: path,
        hlc,
        author_id,
        predecessors,
        deleted,
    }
}

/// The note a revision shows.
pub fn revision_note(revision: NoteRevision) -> (result: Note)
    ensures
        result.id == revision.note_id,
        result.frontmatter == revision.frontmatter,
        result.body == revision.body,
        result.path == revision.materialized_path,
{
    Note {
        id: revision.note_id,
        frontmatter: revision.frontmatter,
        body: revision.body,
        path: revision.materialized_path,
    }
}

/// The presence after a client opens one more connection.
pub open spec fn added(m: Map<Seq<char>, nat>, client: Seq<char>) -> Map<Seq<char>, nat> {
    m.insert(client, if m.contains_key(client) { m[client] + 1 } else { 1 })
}

/// The presence after a client closes one connection: its count drops, and
/// at zero the client is gone.
pub open spec fn removed(m: Map<Seq<char>, nat>, client: Seq<char>) -> Map<Seq<char>, nat> {
    if !m.contains_key(client) {
        m
    } else if m[client] <= 1 {
        m.remove(client)
    } else {
        m.insert(client, (m[client] - 1) as nat)
    }
}

/// Whether every present client has at least one connection.
pub open spec fn counts_positive(m: Map<Seq<char>, nat>) -> bool {
    forall|k: Seq<char>| #[trigger] m.contains_key(k) ==> m[k] >= 1
}

/// Closing a connection undoes opening it.
pub proof fn lemma_remove_undoes_add(m: Map<Seq<char>, nat>, client: Seq<char>)
    requires
        counts_positive(m),
    ensures
        removed(added(m, client), client) == m,
        counts_positive(added(m, client)),
        counts_positive(removed(m, client)),
{
    if m.contains_key(client) {
        assert(removed(added(m, client), client) =~= m);
    } else {
        assert(removed(added(m, client), client) =~= m);
    }
}

/// The clients connected to the workspace, with how many connections each
/// has open, kept in ascending order of client identifier.
#[derive(Debug)]
pub struct ClientPresence {
    ids: Vec<String>,
    counts: Vec<usize>,
}

impl ClientPresence {
    /// The client identifiers, in ascending order.
    pub closed spec fn id_seq(self) -> Seq<Seq<char>> {
        string_views(self.ids@)
    }

    pub closed spec fn view(self) -> Map<Seq<char>, nat> {
        Map::new(
            |k: Seq<char>| self.id_seq().contains(k),
            |k: Seq<char>| self.counts@[self.id_seq().index_of(k)] as nat,
        )
    }

    pub closed spec fn wf(self) -> bool {
        &&& strictly_sorted(self.id_seq())
        &&& self.ids@.len() == self.counts@.len()
        &&& forall|i: int| 0 <= i < self.counts@.len() ==> #[trigger] self.counts@[i] >= 1
    }

    /// What well-formed presence holds, client by client.
    proof fn lemma_entries(self)
        requires
            self.wf(),
        ensures
            self.id_seq().no_duplicates(),
            self.id_seq().to_set() == self.view().dom(),
            forall|i: int| 0 <= i < self.id_seq().len() ==> #[trigger] self.view()[self.id_seq()[i]] == self.counts@[i] as nat,
            counts_positive(self.view()),
    {
        let ids = self.id_seq();
        crate::text::lemma_sorted_no_duplicates(ids);
        assert forall|i: int| 0 <= i < ids.len() implies #[trigger] self.view()[ids[i]] == self.counts@[i] as nat by {
            assert(ids.contains(ids[i]));
            ids.index_of_first_ensures(ids[i]);
        }
        assert(ids.to_set() =~= self.view().dom());
        assert forall|k: Seq<char>| #[trigger] self.view().contains_key(k) implies self.view()[k] >= 1 by {
            ids.index_of_first_ensures(k);
        }
    }

    /// No client connected.
    pub fn new() -> (result: ClientPresence)
        ensures
            result.wf(),
            result.view() == Map::<Seq<char>, nat>::empty(),
    {
        let result = ClientPresence { ids: Vec::new(), counts: Vec::new() };
        proof {
            assert(result.view() =~= Map::<Seq<char>, nat>::empty());
        }
        result
    }

    /// How many connections `client` has open.
    pub fn count(&self, client: &str) -> (result: usize)
        requires
            self.wf(),
        ensures
            self.view().contains_key(client@) ==> result == self.view()[client@],
            !self.view().contains_key(client@) ==> result == 0,
    {
        proof {
            self.lemma_entries();
        }
        match crate::text::find_string(&self.ids, client) {
            Some(i) => {
                assert(self.id_seq()[i as int] == client@);
                self.counts[i]
            },
            None => 0,
        }
    }

    /// Record one more connection of `client`.
    pub fn add_client(&mut self, client: &str)
        requires
            old(self).wf(),
            old(self).view().contains_key(client@) ==> old(self).view()[client@] < usize::MAX,
        ensures
            final(self).wf(),
            final(self).view() == added(old(self).view(), client@),
    {
        let ghost old_ids = self.id_seq();
        let ghost old_counts = self.counts@;
        let ghost old_view = self.view();
        proof {
            self.lemma_entries();
        }
        match crate::text::find_string(&self.ids, client) {
            Some(i) => {
                proof {
                    assert(old_ids[i as int] == client@);
                }
                let c = self.counts[i];
                self.counts.set(i, c + 1);
                proof {
                    assert(self.id_seq() == old_ids);
                    assert(self.counts@ =~= old_counts.update(i as int, (c + 1) as usize));
                    assert forall|k: Seq<char>| #[trigger] self.view().contains_key(k) implies self.view()[k]
                        == added(old_view, client@)[k] by {
                        old_ids.index_of_first_ensures(k);
                    }
                    assert(old_ids.contains(client@));
                    assert(self.view() =~= added(old_view, client@));
                }
            },
            None => {
                let position = crate::text::sorted_position(&self.ids, client);
                let ghost k = client@;
                self.ids.insert(position, client.to_owned());
                self.counts.insert(position, 1);
                proof {
                    assert(self.id_seq() =~= old_ids.insert(position as int, k));
                    assert(self.counts@ =~= old_counts.insert(position as int, 1usize));
                    crate::text::lemma_sorted_insert(old_ids, position as int, k);
                    assert forall|q: Seq<char>| #[trigger] self.view().contains_key(q) implies self.view()[q]
                        == added(old_view, k)[q] by {
                        crate::text::lemma_index_of_insert(old_ids, position as int, k, q);
                    }
                    assert forall|q: Seq<char>| #[trigger] added(old_view, k).contains_key(q) implies self.view().contains_key(q) by {
                        crate::text::lemma_index_of_insert(old_ids, position as int, k, q);
                    }
                    assert(self.view() =~= added(old_view, k));
                }
            },
        }
    }

    /// Record that one connection of `client` closed.
    pub fn remove_client(&mut self, client: &str)
        requires
            old(self).wf(),
        ensures
            final(self).wf(),
            final(self).view() == removed(old(self).view(), client@),
    {
        let ghost old_ids = self.id_seq();
        let ghost old_counts = self.counts@;
        let ghost old_view = self.view();
        proof {
            self.lemma_entries();
        }
        match crate::text::find_string(&self.ids, client) {
            Some(i) => {
                proof {
                    assert(old_ids[i as int] == client@);
                    assert(old_ids.contains(client@));
                }
                let c = self.counts[i];
                if c <= 1 {
                    self.ids.remove(i);
                    self.counts.remove(i);
                    proof {
                        assert(self.id_seq() =~= old_ids.remove(i as int));
                        assert forall|a: int, b: int| 0 <= a < b < self.id_seq().len() implies crate::text::lex_order(#[trigger] self.id_seq()[a], #[trigger] self.id_seq()[b]) < 0 by {
                            let sa = if a < i { a } else { a + 1 };
                            let sb = if b < i { b } else { b + 1 };
                            assert(self.id_seq()[a] == old_ids[sa] && self.id_seq()[b] == old_ids[sb]);
                        }
                        assert forall|q: Seq<char>| #[trigger] self.view().contains_key(q) implies q != client@ && self.view()[q] == old_view[q] by {
                            let t = old_ids.remove(i as int);
                            let j = choose|j: int| 0 <= j < t.len() && t[j] == q;
                            let sj = if j < i { j } else { j + 1 };
                            assert(old_ids[sj] == q);
                            assert(old_ids.contains(q));
                            crate::text::lemma_index_of_remove(old_ids, i as int, q);
                            old_ids.index_of_first_ensures(q);
                        }
                        assert forall|q: Seq<char>| #[trigger] old_view.contains_key(q) && q != client@ implies self.view().contains_key(q) by {
                            crate::text::lemma_index_of_remove(old_ids, i as int, q);
                        }
                        assert(self.view() =~= removed(old_view, client@));
                    }
                } else {
                    self.counts.set(i, c - 1);
                    proof {
                        assert(self.id_seq() == old_ids);
                        assert(self.counts@ =~= old_counts.update(i as int, (c - 1) as usize));
                        assert forall|k: Seq<char>| #[trigger] self.view().contains_key(k) implies self.view()[k]
                            == removed(old_view, client@)[k] by {
                            old_ids.index_of_first_ensures(k);
                        }
                        assert(self.view() =~= removed(old_view, client@));
                    }
                }
            },
            None => {
                proof {
                    assert(self.view() =~= removed(old_view, client@));
                }
            },
        }
    }

    /// The connected clients, in ascending order.
    pub fn client_ids(&self) -> (result: Vec<String>)
        requires
            self.wf(),
        ensures
            strictly_sorted(string_views(result@)),
            string_views(result@).to_set() == self.view().dom(),
    {
        proof {
            self.lemma_entries();
        }
        crate::text::clone_strings(&self.ids)
    }
}

} // verus!
