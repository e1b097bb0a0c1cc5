//! Choosing the visible revision of a note from the heads its authors assert,
//! and reporting the revisions that conflict with it.

use vstd::prelude::*;

use crate::domain::{Conflict, Head, NoteId, RevisionId};
use crate::hlc::{hlc_order, Hlc};
use crate::text::{
    compare_str, find_string, insert_sorted, lemma_lex_order_antisym, lemma_lex_order_trans,
    lex_order, order_value, string_views, strictly_sorted, Order,
};

verus! {

/// What resolution reads of a stored revision.
#[derive(Debug, PartialEq, Eq)]
pub struct RevisionInfo {
    pub note_id: NoteId,
    pub hlc: Hlc,
    pub predecessors: Vec<RevisionId>,
    pub deleted: bool,
}

/// The identifiers of a revision's predecessors.
pub open spec fn predecessor_ids(info: RevisionInfo) -> Seq<Seq<char>> {
    info.predecessors@.map_values(|r: RevisionId| r.0@)
}

/// Revisions by identifier.
pub struct RevisionMap {
    ids: Vec<String>,
    infos: Vec<RevisionInfo>,
}

impl RevisionMap {
    pub closed spec fn view(self) -> Map<Seq<char>, RevisionInfo> {
        Map::new(
            |k: Seq<char>| string_views(self.ids@).contains(k),
            |k: Seq<char>| self.infos@[string_views(self.ids@).index_of(k)],
        )
    }

    pub closed spec fn wf(self) -> bool {
        &&& string_views(self.ids@).no_duplicates()
        &&& self.ids@.len() == self.infos@.len()
    }

    /// The identifiers, in insertion order.
    pub closed spec fn id_seq(self) -> Seq<Seq<char>> {
        string_views(self.ids@)
    }

    /// The revisions, in the order of their identifiers.
    pub closed spec fn info_seq(self) -> Seq<RevisionInfo> {
        self.infos@
    }

    proof fn lemma_entry(self, i: int)
        requires
            self.wf(),
            0 <= i < self.ids@.len(),
        ensures
            self.view().contains_key(self.ids@[i]@),
            self.view()[self.ids@[i]@] == self.infos@[i],
    {
        let keys = string_views(self.ids@);
        assert(keys[i] == self.ids@[i]@);
        assert(keys.contains(keys[i]));
        keys.index_of_first_ensures(keys[i]);
    }

    /// Every identifier and revision of a well-formed map, and its domain.
    pub proof fn lemma_entries(self)
        requires
            self.wf(),
        ensures
            self.id_seq().len() == self.info_seq().len(),
            self.id_seq().to_set() == self.view().dom(),
            forall|i: int|
                0 <= i < self.id_seq().len() ==> #[trigger] self.view()[self.id_seq()[i]] == self.info_seq()[i],
    {
        assert forall|i: int| 0 <= i < self.id_seq().len() implies #[trigger] self.view()[self.id_seq()[i]]
            == self.info_seq()[i] by {
            self.lemma_entry(i);
        }
        assert(self.id_seq().to_set() =~= self.view().dom());
    }

    pub fn new() -> (result: RevisionMap)
        ensures
            result.wf(),
            result.view() == Map::<Seq<char>, RevisionInfo>::empty(),
    {
        let result = RevisionMap { ids: Vec::new(), infos: Vec::new() };
        assert(result.view() =~= Map::<Seq<char>, RevisionInfo>::empty());
        result
    }

    /// Store `info` under `id`, replacing what was there.
    pub fn insert(&mut self, id: RevisionId, info: RevisionInfo)
        requires
            old(self).wf(),
        ensures
            final(self).wf(),
            final(self).view() == old(self).view().insert(id.0@, info),
    {
        let ghost old_view = self.view();
        let ghost old_keys = string_views(self.ids@);
        match find_string(&self.ids, id.0.as_str()) {
            Some(i) => {
                self.infos.set(i, info);
                proof {
                    assert(string_views(self.ids@) == old_keys);
                    assert(old_keys[i as int] == id.0@);
                    assert(old_keys.contains(id.0@));
                    assert forall|k: Seq<char>| #[trigger] self.view().contains_key(k) implies self.view()[k]
                        == old_view.insert(id.0@, info)[k] by {
                        old_keys.index_of_first_ensures(k);
                        if k == id.0@ {
                            old_keys.index_of_first_ensures(id.0@);
                        }
                    }
                    assert(self.view() =~= old_view.insert(id.0@, info));
                }
            },
            None => {
                let ghost k = id.0@;
                self.ids.push(id.0);
                self.infos.push(info);
                proof {
                    let keys = string_views(self.ids@);
                    assert(keys =~= old_keys.push(k));
                    assert forall|a: int, b: int| 0 <= a < b < keys.len() implies keys[a] != keys[b] by {
                        if b == keys.len() - 1 {
                            assert(old_keys.contains(keys[a]) ==> true);
                            assert(keys[a] == old_keys[a]);
                        }
                    }
                    assert forall|q: Seq<char>| #[trigger] self.view().contains_key(q) implies self.view()[q]
                        == old_view.insert(k, info)[q] by {
                        keys.index_of_first_ensures(q);
                        if q == k {
                            assert(keys[keys.len() - 1] == k);
                            assert(keys.index_of(q) == keys.len() - 1);
                        } else {
                            old_keys.index_of_first_ensures(q);
                            assert(keys.index_of(q) == old_keys.index_of(q));
                        }
                    }
                    assert forall|q: Seq<char>| #[trigger] old_view.insert(k, info).contains_key(q) implies self.view().contains_key(q) by {
                        if q == k {
                            assert(keys[keys.len() - 1] == k);
                        } else {
                            let j = old_keys.index_of(q);
                            old_keys.index_of_first_ensures(q);
                            assert(keys[j] == q);
                        }
                    }
                    assert(self.view() =~= old_view.insert(k, info));
                }
            },
        }
    }

    /// The revision stored under `id`.
    pub fn get(&self, id: &str) -> (result: Option<&RevisionInfo>)
        requires
            self.wf(),
        ensures
            result is None <==> !self.view().contains_key(id@),
            result matches Some(info) ==> *info == self.view()[id@],
    {
        match find_string(&self.ids, id) {
            Some(i) => {
                proof {
                    self.lemma_entry(i as int);
                }
                Some(&self.infos[i])
            },
            None => None,
        }
    }
}

// ---------------------------------------------------------------------------
// Ancestry.

/// Whether `to` is reached from `from` in exactly `steps` steps, each from a
/// stored revision to one of its predecessors.
pub open spec fn reaches(m: Map<Seq<char>, RevisionInfo>, from: Seq<char>, to: Seq<char>, steps: nat) -> bool
    decreases steps,
{
    if steps == 0 {
        from == to
    } else {
        m.contains_key(from) && exists|k: int|
            0 <= k < predecessor_ids(m[from]).len() && reaches(
                m,
                #[trigger] predecessor_ids(m[from])[k],
                to,
                (steps - 1) as nat,
            )
    }
}

/// Whether `to` is reached from `from` in some number of steps.
pub open spec fn reachable(m: Map<Seq<char>, RevisionInfo>, from: Seq<char>, to: Seq<char>) -> bool {
    exists|n: nat| #[trigger] reaches(m, from, to, n)
}

/// Whether `ancestor` is a strict ancestor of `descendant`.
pub open spec fn is_ancestor_spec(m: Map<Seq<char>, RevisionInfo>, ancestor: Seq<char>, descendant: Seq<char>) -> bool {
    exists|n: nat| n >= 1 && #[trigger] reaches(m, descendant, ancestor, n)
}

/// A path can be extended by one more step at its end.
proof fn lemma_reaches_extend(m: Map<Seq<char>, RevisionInfo>, from: Seq<char>, to: Seq<char>, n: nat, k: int)
    requires
        reaches(m, from, to, n),
        m.contains_key(to),
        0 <= k < predecessor_ids(m[to]).len(),
    ensures
        reaches(m, from, predecessor_ids(m[to])[k], n + 1),
    decreases n,
{
    if n == 0 {
        assert(reaches(m, predecessor_ids(m[to])[k], predecessor_ids(m[to])[k], 0));
    } else {
        let j = choose|j: int|
            0 <= j < predecessor_ids(m[from]).len() && reaches(m, #[trigger] predecessor_ids(m[from])[j], to, (n - 1) as nat);
        lemma_reaches_extend(m, predecessor_ids(m[from])[j], to, (n - 1) as nat, k);
        assert(reaches(m, predecessor_ids(m[from])[j], predecessor_ids(m[to])[k], n));
    }
}

/// From revisions closed under taking predecessors, none of which has `a`
/// as a predecessor, `a` is never reached.
proof fn lemma_closed_set_avoids(m: Map<Seq<char>, RevisionInfo>, visited: Seq<Seq<char>>, a: Seq<char>, x: Seq<char>, n: nat)
    requires
        visited.contains(x),
        n >= 1,
        forall|v: Seq<char>, k: int|
            #![trigger visited.contains(v), predecessor_ids(m[v])[k]]
            visited.contains(v) && m.contains_key(v) && 0 <= k < predecessor_ids(m[v]).len() ==> visited.contains(
                predecessor_ids(m[v])[k],
            ) && predecessor_ids(m[v])[k] != a,
    ensures
        !reaches(m, x, a, n),
    decreases n,
{
    if reaches(m, x, a, n) {
        let k = choose|k: int|
            0 <= k < predecessor_ids(m[x]).len() && reaches(m, #[trigger] predecessor_ids(m[x])[k], a, (n - 1) as nat);
        let p = predecessor_ids(m[x])[k];
        assert(visited.contains(p) && p != a);
        if n == 1 {
            assert(reaches(m, p, a, 0));
        } else {
            lemma_closed_set_avoids(m, visited, a, p, (n - 1) as nat);
        }
    }
}

/// The predecessors of every revision, one after another.
pub open spec fn all_predecessors(infos: Seq<RevisionInfo>) -> Seq<Seq<char>>
    decreases infos.len(),
{
    if infos.len() == 0 {
        Seq::empty()
    } else {
        all_predecessors(infos.drop_last()) + predecessor_ids(infos.last())
    }
}

proof fn lemma_all_predecessors(infos: Seq<RevisionInfo>, i: int, k: int)
    requires
        0 <= i < infos.len(),
        0 <= k < predecessor_ids(infos[i]).len(),
    ensures
        all_predecessors(infos).contains(predecessor_ids(infos[i])[k]),
    decreases infos.len(),
{
    let rest = all_predecessors(infos.drop_last());
    let last = predecessor_ids(infos.last());
    if i == infos.len() - 1 {
        assert((rest + last)[rest.len() + k] == last[k]);
    } else {
        lemma_all_predecessors(infos.drop_last(), i, k);
        let j = choose|j: int| 0 <= j < rest.len() && rest[j] == predecessor_ids(infos[i])[k];
        assert((rest + last)[j] == rest[j]);
    }
}

/// Whether `v` occurs in `vec`.
fn contains_string(vec: &Vec<String>, v: &str) -> (result: bool)
    ensures
        result == string_views(vec@).contains(v@),
{
    match find_string(vec, v) {
        Some(i) => {
            assert(string_views(vec@)[i as int] == v@);
            true
        },
        None => false,
    }
}

/// The search's closure property survives one step: popping `cur`, marking
/// it visited, and pushing its predecessors unless it was visited before.
proof fn lemma_search_step(
    m: Map<Seq<char>, RevisionInfo>,
    a: Seq<char>,
    d: Seq<char>,
    before_visited: Seq<Seq<char>>,
    before_pending: Seq<Seq<char>>,
    popped: Seq<Seq<char>>,
    cur: Seq<char>,
    new_visited: Seq<Seq<char>>,
    new_pending: Seq<Seq<char>>,
)
    requires
        forall|v: Seq<char>, k: int|
            #![trigger before_visited.contains(v), predecessor_ids(m[v])[k]]
            before_visited.contains(v) && m.contains_key(v) && 0 <= k < predecessor_ids(m[v]).len()
                ==> (before_visited.contains(predecessor_ids(m[v])[k]) || before_pending.contains(predecessor_ids(m[v])[k]))
                && predecessor_ids(m[v])[k] != a,
        before_visited.contains(d) || before_pending.contains(d),
        before_pending == popped.push(cur),
        forall|x: Seq<char>| #[trigger] new_visited.contains(x) <==> before_visited.contains(x) || x == cur,
        forall|x: Seq<char>| #[trigger] popped.contains(x) ==> new_pending.contains(x),
        before_visited.contains(cur) || (m.contains_key(cur) ==> forall|k: int|
            0 <= k < predecessor_ids(m[cur]).len() ==> new_pending.contains(#[trigger] predecessor_ids(m[cur])[k])
                && predecessor_ids(m[cur])[k] != a),
    ensures
        forall|v: Seq<char>, k: int|
            #![trigger new_visited.contains(v), predecessor_ids(m[v])[k]]
            new_visited.contains(v) && m.contains_key(v) && 0 <= k < predecessor_ids(m[v]).len()
                ==> (new_visited.contains(predecessor_ids(m[v])[k]) || new_pending.contains(predecessor_ids(m[v])[k]))
                && predecessor_ids(m[v])[k] != a,
        new_visited.contains(d) || new_pending.contains(d),
{
    assert forall|x: Seq<char>| before_pending.contains(x) implies new_pending.contains(x) || new_visited.contains(x) by {
        let i = choose|i: int| 0 <= i < before_pending.len() && before_pending[i] == x;
        if i < popped.len() {
            assert(popped[i] == x);
            assert(popped.contains(x));
        } else {
            assert(x == cur);
        }
    }
    assert forall|v: Seq<char>, k: int|
        #![trigger new_visited.contains(v), predecessor_ids(m[v])[k]]
        new_visited.contains(v) && m.contains_key(v) && 0 <= k < predecessor_ids(m[v]).len() implies (new_visited.contains(
            predecessor_ids(m[v])[k],
        ) || new_pending.contains(predecessor_ids(m[v])[k])) && predecessor_ids(m[v])[k] != a by {
        let p = predecessor_ids(m[v])[k];
        if before_visited.contains(v) {
            assert(before_visited.contains(p) || before_pending.contains(p));
            if before_visited.contains(p) {
                assert(new_visited.contains(p));
            }
        } else {
            assert(v == cur);
            assert(new_pending.contains(p) && p != a);
        }
    }
}

/// Whether `possible_ancestor` is a strict ancestor of `descendant`: a
/// depth-first search through stored predecessors.
pub fn is_ancestor(possible_ancestor: &str, descendant: &str, revisions: &RevisionMap) -> (result: bool)
    requires
        revisions.wf(),
    ensures
        result == is_ancestor_spec(revisions.view(), possible_ancestor@, descendant@),
{
    let ghost m = revisions.view();
    let ghost a = possible_ancestor@;
    let ghost d = descendant@;
    let ghost universe = (revisions.id_seq() + all_predecessors(revisions.info_seq()) + seq![d]).to_set();
    proof {
        revisions.lemma_entries();
        vstd::seq_lib::seq_to_set_is_finite(revisions.id_seq() + all_predecessors(revisions.info_seq()) + seq![d]);
        let u = revisions.id_seq() + all_predecessors(revisions.info_seq()) + seq![d];
        assert(u[u.len() - 1] == d);
        assert(universe.contains(d));
    }
    let mut pending: Vec<String> = Vec::new();
    pending.push(descendant.to_owned());
    let mut visited: Vec<String> = Vec::new();
    proof {
        assert(reaches(m, d, d, 0));
        assert(pending@[0]@ == d);
        assert(string_views(pending@)[0] == d);
        let u = revisions.id_seq() + all_predecessors(revisions.info_seq()) + seq![d];
        assert forall|v: Seq<char>, k: int|
            #![trigger m.contains_key(v), predecessor_ids(m[v])[k]]
            m.contains_key(v) && 0 <= k < predecessor_ids(m[v]).len() implies universe.contains(predecessor_ids(m[v])[k]) by {
            assert(revisions.id_seq().to_set().contains(v));
            let i = choose|i: int| 0 <= i < revisions.id_seq().len() && revisions.id_seq()[i] == v;
            assert(m[revisions.id_seq()[i]] == revisions.info_seq()[i]);
            lemma_all_predecessors(revisions.info_seq(), i, k);
            let x = predecessor_ids(m[v])[k];
            let ap = all_predecessors(revisions.info_seq());
            let j = choose|j: int| 0 <= j < ap.len() && ap[j] == x;
            assert(u[revisions.id_seq().len() + j] == x);
        }
    }
    while pending.len() > 0
        invariant
            revisions.wf(),
            m == revisions.view(),
            a == possible_ancestor@,
            d == descendant@,
            universe.finite(),
            universe.contains(d),
            forall|v: Seq<char>, k: int|
                #![trigger m.contains_key(v), predecessor_ids(m[v])[k]]
                m.contains_key(v) && 0 <= k < predecessor_ids(m[v]).len() ==> universe.contains(predecessor_ids(m[v])[k]),
            string_views(visited@).no_duplicates(),
            forall|i: int| 0 <= i < visited@.len() ==> universe.contains(#[trigger] visited@[i]@),
            forall|i: int| 0 <= i < pending@.len() ==> universe.contains(#[trigger] pending@[i]@),
            forall|i: int| #![trigger pending@[i]] 0 <= i < pending@.len() ==> reachable(m, d, pending@[i]@),
            forall|i: int| #![trigger visited@[i]] 0 <= i < visited@.len() ==> reachable(m, d, visited@[i]@),
            string_views(visited@).contains(d) || string_views(pending@).contains(d),
            forall|v: Seq<char>, k: int|
                #![trigger string_views(visited@).contains(v), predecessor_ids(m[v])[k]]
                string_views(visited@).contains(v) && m.contains_key(v) && 0 <= k < predecessor_ids(m[v]).len()
                    ==> (string_views(visited@).contains(predecessor_ids(m[v])[k]) || string_views(pending@).contains(
                    predecessor_ids(m[v])[k],
                )) && predecessor_ids(m[v])[k] != a,
        decreases universe.len() - visited@.len(), pending@.len(),
    {
        proof {
            string_views(visited@).unique_seq_to_set();
            assert forall|x: Seq<char>| string_views(visited@).to_set().contains(x) implies universe.contains(x) by {
                let i = choose|i: int| 0 <= i < string_views(visited@).len() && string_views(visited@)[i] == x;
                assert(universe.contains(visited@[i]@));
            }
            vstd::set_lib::lemma_len_subset(string_views(visited@).to_set(), universe);
        }
        let ghost before_pending = pending@;
        let ghost before_visited = visited@;
        let popped = pending.pop();
        let current = match popped {
            Some(c) => c,
            None => {
                return false;
            },
        };
        let ghost popped = pending@;
        proof {
            assert(before_pending.last() == current);
            assert(pending@ =~= before_pending.drop_last());
            assert(string_views(before_pending) =~= string_views(popped).push(current@));
            assert(universe.contains(before_pending[before_pending.len() - 1]@));
            assert(reachable(m, d, before_pending[before_pending.len() - 1]@));
            assert forall|i: int| #![trigger pending@[i]] 0 <= i < pending@.len() implies reachable(m, d, pending@[i]@) by {
                assert(pending@[i] == before_pending[i]);
            }
            assert forall|i: int| 0 <= i < pending@.len() implies universe.contains(#[trigger] pending@[i]@) by {
                assert(pending@[i] == before_pending[i]);
            }
            assert forall|x: Seq<char>| string_views(before_pending).contains(x) implies string_views(pending@).contains(x)
                || x == current@ by {
                let i = choose|i: int| 0 <= i < string_views(before_pending).len() && string_views(before_pending)[i] == x;
                if i < before_pending.len() - 1 {
                    assert(string_views(pending@)[i] == x);
                }
            }
        }
        if contains_string(&visited, current.as_str()) {
            proof {
                lemma_search_step(m, a, d, string_views(before_visited), string_views(before_pending), string_views(popped),
                    current@, string_views(visited@), string_views(pending@));
            }
            continue;
        }
        let ghost cur = current@;
        let ghost reach_n = choose|n: nat| #[trigger] reaches(m, d, cur, n);
        proof {
            assert(reachable(m, d, cur));
        }
        visited.push(current.clone());
        proof {
            assert(string_views(visited@) =~= string_views(before_visited).push(cur));
            assert forall|x: Seq<char>| string_views(visited@).contains(x) <==> (string_views(before_visited).contains(x)
                || x == cur) by {
                if string_views(visited@).contains(x) {
                    let i = choose|i: int| 0 <= i < string_views(visited@).len() && string_views(visited@)[i] == x;
                    if i < before_visited.len() {
                        assert(string_views(before_visited)[i] == x);
                    }
                }
                if string_views(before_visited).contains(x) {
                    let i = choose|i: int| 0 <= i < string_views(before_visited).len() && string_views(before_visited)[i] == x;
                    assert(string_views(visited@)[i] == x);
                }
                if x == cur {
                    assert(string_views(visited@)[before_visited.len() as int] == x);
                }
            }
            assert forall|i: int, j: int| 0 <= i < j < string_views(visited@).len() implies string_views(visited@)[i]
                != string_views(visited@)[j] by {
                if j == before_visited.len() {
                    assert(string_views(before_visited)[i] == string_views(visited@)[i]);
                    assert(string_views(before_visited).contains(string_views(visited@)[i]));
                }
            }
        }
        match revisions.get(current.as_str()) {
            None => {
                proof {
                    lemma_search_step(m, a, d, string_views(before_visited), string_views(before_pending), string_views(popped),
                        cur, string_views(visited@), string_views(pending@));
                }
            },
            Some(info) => {
                let target = crate::text::chars_of(possible_ancestor);
                let ghost pending_start = pending@;
                let mut k: usize = 0;
                while k < info.predecessors.len()
                    invariant
                        revisions.wf(),
                        m == revisions.view(),
                        a == possible_ancestor@,
                        d == descendant@,
                        target@ == a,
                        m.contains_key(cur),
                        *info == m[cur],
                        reaches(m, d, cur, reach_n),
                        k <= predecessor_ids(*info).len(),
                        string_views(pending@) == string_views(pending_start) + predecessor_ids(*info).take(k as int),
                        forall|j: int| 0 <= j < k ==> #[trigger] predecessor_ids(*info)[j] != a,
                        universe.finite(),
                        forall|v: Seq<char>, q: int|
                            #![trigger m.contains_key(v), predecessor_ids(m[v])[q]]
                            m.contains_key(v) && 0 <= q < predecessor_ids(m[v]).len() ==> universe.contains(predecessor_ids(m[v])[q]),
                        forall|i: int| 0 <= i < pending_start.len() ==> universe.contains(#[trigger] pending_start[i]@),
                        forall|i: int| #![trigger pending_start[i]] 0 <= i < pending_start.len() ==> reachable(m, d, pending_start[i]@),
                        forall|i: int| 0 <= i < pending@.len() ==> universe.contains(#[trigger] pending@[i]@),
                        forall|i: int| #![trigger pending@[i]] 0 <= i < pending@.len() ==> reachable(m, d, pending@[i]@),
                    decreases predecessor_ids(*info).len() - k,
                {
                    let p = &info.predecessors[k];
                    let ghost pid = p.0@;
                    proof {
                        assert(pid == predecessor_ids(*info)[k as int]);
                    }
                    if crate::text::eq_str(target.as_slice(), p.0.as_str()) {
                        proof {
                            lemma_reaches_extend(m, d, cur, reach_n, k as int);
                            assert(reaches(m, d, a, reach_n + 1));
                        }
                        return true;
                    }
                    let ghost before = pending@;
                    pending.push(p.0.clone());
                    proof {
                        lemma_reaches_extend(m, d, cur, reach_n, k as int);
                        assert(string_views(pending@) =~= string_views(before).push(pid));
                        assert(predecessor_ids(*info).take(k + 1) =~= predecessor_ids(*info).take(k as int).push(pid));
                        assert(pending@[pending@.len() - 1]@ == pid);
                        assert(reaches(m, d, pending@[pending@.len() - 1]@, reach_n + 1));
                        assert forall|i: int| #![trigger pending@[i]] 0 <= i < pending@.len() implies reachable(m, d, pending@[i]@) by {
                            if i < before.len() {
                                assert(pending@[i] == before[i]);
                            } else {
                                assert(reaches(m, d, pending@[i]@, reach_n + 1));
                            }
                        }
                        assert forall|i: int| 0 <= i < pending@.len() implies universe.contains(#[trigger] pending@[i]@) by {
                            if i < before.len() {
                                assert(pending@[i] == before[i]);
                            }
                        }
                    }
                    k = k + 1;
                }
                proof {
                    assert(predecessor_ids(*info).take(k as int) =~= predecessor_ids(*info));
                    assert forall|q: int| 0 <= q < predecessor_ids(m[cur]).len() implies string_views(pending@).contains(
                        predecessor_ids(m[cur])[q],
                    ) by {
                        assert(string_views(pending@)[pending_start.len() + q] == predecessor_ids(m[cur])[q]);
                    }
                    assert forall|x: Seq<char>| #[trigger] string_views(popped).contains(x) implies string_views(pending@).contains(x) by {
                        let i = choose|i: int| 0 <= i < string_views(popped).len() && string_views(popped)[i] == x;
                        assert(string_views(pending@)[i] == x);
                    }
                    lemma_search_step(m, a, d, string_views(before_visited), string_views(before_pending), string_views(popped),
                        cur, string_views(visited@), string_views(pending@));
                }
            },
        }
        proof {
            assert(universe.contains(cur));
            string_views(visited@).unique_seq_to_set();
            assert forall|x: Seq<char>| string_views(visited@).to_set().contains(x) implies universe.contains(x) by {
                let i = choose|i: int| 0 <= i < string_views(visited@).len() && string_views(visited@)[i] == x;
                assert(visited@[i]@ == x);
            }
            vstd::set_lib::lemma_len_subset(string_views(visited@).to_set(), universe);
        }
    }
    proof {
        if is_ancestor_spec(m, a, d) {
            let n = choose|n: nat| n >= 1 && #[trigger] reaches(m, d, a, n);
            lemma_closed_set_avoids(m, string_views(visited@), a, d, n);
        }
    }
    false
}

// ---------------------------------------------------------------------------
// Resolution.

/// The outcome of resolving a note's heads. The winning revision is shown
/// unless it records a deletion.
#[derive(Clone, Debug, PartialEq, Eq)]
pub struct ResolvedNote {
    pub winning_revision: RevisionId,
    pub visible: bool,
    pub conflict: Option<Conflict>,
}

/// Whether a head names a stored revision of its own note.
pub open spec fn is_candidate(m: Map<Seq<char>, RevisionInfo>, head: Head) -> bool {
    m.contains_key(head.revision_id.0@) && m[head.revision_id.0@].note_id.0@ == head.note_id.0@
}

/// The revisions that the heads put forward.
pub open spec fn candidates(m: Map<Seq<char>, RevisionInfo>, heads: Seq<Head>) -> Set<Seq<char>> {
    Set::new(
        |id: Seq<char>|
            exists|i: int| 0 <= i < heads.len() && is_candidate(m, #[trigger] heads[i]) && heads[i].revision_id.0@ == id,
    )
}

/// The order in which revisions win: by timestamp, then by identifier.
pub open spec fn rank_order(m: Map<Seq<char>, RevisionInfo>, x: Seq<char>, y: Seq<char>) -> int {
    if hlc_order(m[x].hlc, m[y].hlc) != 0 {
        hlc_order(m[x].hlc, m[y].hlc)
    } else {
        lex_order(x, y)
    }
}

/// Whether `w` wins among `cands`: every other candidate ranks below it.
pub open spec fn is_winner(m: Map<Seq<char>, RevisionInfo>, cands: Set<Seq<char>>, w: Seq<char>) -> bool {
    cands.contains(w) && forall|c: Seq<char>| #[trigger] cands.contains(c) && c != w ==> rank_order(m, c, w) < 0
}

/// The winning candidate.
pub open spec fn winner(m: Map<Seq<char>, RevisionInfo>, cands: Set<Seq<char>>) -> Seq<char> {
    choose|w: Seq<char>| is_winner(m, cands, w)
}

/// The candidates other than the winner that it does not descend from.
pub open spec fn concurrent(m: Map<Seq<char>, RevisionInfo>, cands: Set<Seq<char>>, w: Seq<char>) -> Set<Seq<char>> {
    cands.filter(|c: Seq<char>| c != w && !is_ancestor_spec(m, c, w))
}

/// How the clock order of timestamps is antisymmetric and when it ties.
pub proof fn lemma_hlc_order_antisym(a: Hlc, b: Hlc)
    ensures
        hlc_order(a, b) == -hlc_order(b, a),
        hlc_order(a, b) == 0 ==> a.physical_ms == b.physical_ms && a.logical == b.logical && a.actor_id.0@
            == b.actor_id.0@,
        -1 <= hlc_order(a, b) <= 1,
{
    lemma_lex_order_antisym(a.actor_id.0@, b.actor_id.0@);
    lemma_lex_order_bounds(a.actor_id.0@, b.actor_id.0@);
}

proof fn lemma_lex_order_bounds(a: Seq<char>, b: Seq<char>)
    ensures
        -1 <= lex_order(a, b) <= 1,
    decreases a.len(),
{
    if a.len() > 0 && b.len() > 0 && a[0] == b[0] {
        lemma_lex_order_bounds(a.drop_first(), b.drop_first());
    }
}

/// The clock order of timestamps is transitive.
pub proof fn lemma_hlc_order_trans(a: Hlc, b: Hlc, c: Hlc)
    requires
        hlc_order(a, b) <= 0,
        hlc_order(b, c) <= 0,
    ensures
        hlc_order(a, c) <= 0,
        hlc_order(a, b) < 0 || hlc_order(b, c) < 0 ==> hlc_order(a, c) < 0,
{
    lemma_hlc_order_antisym(a, b);
    lemma_hlc_order_antisym(b, c);
    lemma_hlc_order_antisym(a, c);
    let (x, y, z) = (a.actor_id.0@, b.actor_id.0@, c.actor_id.0@);
    lemma_lex_order_antisym(x, y);
    lemma_lex_order_antisym(y, z);
    lemma_lex_order_antisym(x, z);
    if lex_order(x, y) < 0 && lex_order(y, z) < 0 {
        lemma_lex_order_trans(x, y, z);
    }
}

/// Winning order is a strict total order on revision identifiers.
pub proof fn lemma_rank_order(m: Map<Seq<char>, RevisionInfo>, x: Seq<char>, y: Seq<char>, z: Seq<char>)
    ensures
        rank_order(m, x, y) == -rank_order(m, y, x),
        rank_order(m, x, y) == 0 <==> x == y,
        rank_order(m, x, y) < 0 && rank_order(m, y, z) < 0 ==> rank_order(m, x, z) < 0,
{
    lemma_hlc_order_antisym(m[x].hlc, m[y].hlc);
    lemma_lex_order_antisym(x, y);
    if rank_order(m, x, y) < 0 && rank_order(m, y, z) < 0 {
        lemma_hlc_order_antisym(m[y].hlc, m[z].hlc);
        lemma_hlc_order_antisym(m[x].hlc, m[z].hlc);
        lemma_hlc_order_trans(m[x].hlc, m[y].hlc, m[z].hlc);
        if hlc_order(m[x].hlc, m[y].hlc) == 0 && hlc_order(m[y].hlc, m[z].hlc) == 0 {
            lemma_lex_order_trans(x, y, z);
            lemma_hlc_order_antisym(m[z].hlc, m[x].hlc);
            lemma_lex_order_antisym(x, z);
        }
    }
}

/// At most one candidate wins.
pub proof fn lemma_winner_unique(m: Map<Seq<char>, RevisionInfo>, cands: Set<Seq<char>>, w1: Seq<char>, w2: Seq<char>)
    requires
        is_winner(m, cands, w1),
        is_winner(m, cands, w2),
    ensures
        w1 == w2,
{
    if w1 != w2 {
        assert(cands.contains(w2) && w2 != w1);
        assert(rank_order(m, w2, w1) < 0);
        assert(rank_order(m, w1, w2) < 0);
        lemma_rank_order(m, w1, w2, w1);
    }
}

/// The resolution depends only on which heads are given, not on their
/// order or on repetitions.
pub proof fn lemma_head_order_irrelevant(m: Map<Seq<char>, RevisionInfo>, h1: Seq<Head>, h2: Seq<Head>)
    requires
        h1.to_set() == h2.to_set(),
    ensures
        candidates(m, h1) == candidates(m, h2),
        winner(m, candidates(m, h1)) == winner(m, candidates(m, h2)),
        concurrent(m, candidates(m, h1), winner(m, candidates(m, h1))) == concurrent(
            m,
            candidates(m, h2),
            winner(m, candidates(m, h2)),
        ),
{
    assert forall|id: Seq<char>| candidates(m, h1).contains(id) implies candidates(m, h2).contains(id) by {
        let i = choose|i: int| 0 <= i < h1.len() && is_candidate(m, #[trigger] h1[i]) && h1[i].revision_id.0@ == id;
        assert(h1.to_set().contains(h1[i]));
        let j = choose|j: int| 0 <= j < h2.len() && h2[j] == h1[i];
        assert(is_candidate(m, h2[j]) && h2[j].revision_id.0@ == id);
    }
    assert forall|id: Seq<char>| candidates(m, h2).contains(id) implies candidates(m, h1).contains(id) by {
        let i = choose|i: int| 0 <= i < h2.len() && is_candidate(m, #[trigger] h2[i]) && h2[i].revision_id.0@ == id;
        assert(h2.to_set().contains(h2[i]));
        let j = choose|j: int| 0 <= j < h1.len() && h1[j] == h2[i];
        assert(is_candidate(m, h1[j]) && h1[j].revision_id.0@ == id);
    }
    assert(candidates(m, h1) =~= candidates(m, h2));
}

/// Whether revision `x` ranks below revision `y`.
fn ranks_below(revisions: &RevisionMap, x: &str, y: &str) -> (result: bool)
    requires
        revisions.wf(),
        revisions.view().contains_key(x@),
        revisions.view().contains_key(y@),
    ensures
        result == (rank_order(revisions.view(), x@, y@) < 0),
{
    let a = revisions.get(x).unwrap();
    let b = revisions.get(y).unwrap();
    proof {
        lemma_hlc_order_antisym(a.hlc, b.hlc);
        lemma_lex_order_bounds(x@, y@);
    }
    match a.hlc.compare(&b.hlc) {
        Order::Less => true,
        Order::Greater => false,
        Order::Equal => {
            match compare_str(x, y) {
                Order::Less => true,
                _ => false,
            }
        },
    }
}

/// Resolve the heads that authors assert for a note: the latest candidate
/// revision by timestamp, then identifier, wins; the other candidates it
/// does not descend from are reported as a conflict.
pub fn resolve_heads(revisions: &RevisionMap, heads: &[Head]) -> (result: Option<ResolvedNote>)
    requires
        revisions.wf(),
    ensures
        result is None <==> candidates(revisions.view(), heads@) == Set::<Seq<char>>::empty(),
        result matches Some(r) ==> {
            let m = revisions.view();
            let cands = candidates(m, heads@);
            let w = winner(m, cands);
            &&& is_winner(m, cands, w)
            &&& r.winning_revision.0@ == w
            &&& r.visible == !m[w].deleted
            &&& match r.conflict {
                None => concurrent(m, cands, w) == Set::<Seq<char>>::empty(),
                Some(c) => {
                    &&& c.note_id.0@ == m[w].note_id.0@
                    &&& c.winning_revision.0@ == w
                    &&& strictly_sorted(c.concurrent_revisions@.map_values(|r: RevisionId| r.0@))
                    &&& c.concurrent_revisions@.map_values(|r: RevisionId| r.0@).to_set() == concurrent(m, cands, w)
                    &&& concurrent(m, cands, w) != Set::<Seq<char>>::empty()
                },
            }
        },
{
    let ghost m = revisions.view();
    let mut ids: Vec<String> = Vec::new();
    let mut i: usize = 0;
    while i < heads.len()
        invariant
            revisions.wf(),
            m == revisions.view(),
            i <= heads@.len(),
            string_views(ids@).to_set() == candidates(m, heads@.take(i as int)),
            forall|j: int| 0 <= j < ids@.len() ==> m.contains_key(#[trigger] ids@[j]@),
        decreases heads@.len() - i,
    {
        let head = &heads[i];
        let ghost before = string_views(ids@);
        let mut chosen = false;
        match revisions.get(head.revision_id.0.as_str()) {
            Some(info) => {
                if info.note_id.0 == head.note_id.0 {
                    ids.push(head.revision_id.0.clone());
                    chosen = true;
                }
            },
            None => {},
        }
        proof {
            let next = heads@.take(i + 1);
            let prev = heads@.take(i as int);
            assert(next[i as int] == heads@[i as int]);
            assert forall|id: Seq<char>| candidates(m, next).contains(id) <==> (candidates(m, prev).contains(id) || (
                chosen && id == heads@[i as int].revision_id.0@)) by {
                if candidates(m, next).contains(id) {
                    let j = choose|j: int| 0 <= j < next.len() && is_candidate(m, #[trigger] next[j]) && next[j].revision_id.0@ == id;
                    if j < i {
                        assert(prev[j] == next[j]);
                    }
                }
                if candidates(m, prev).contains(id) {
                    let j = choose|j: int| 0 <= j < prev.len() && is_candidate(m, #[trigger] prev[j]) && prev[j].revision_id.0@ == id;
                    assert(next[j] == prev[j]);
                }
            }
            if chosen {
                assert(string_views(ids@) =~= before.push(heads@[i as int].revision_id.0@));
                before.lemma_push_to_set_commute(heads@[i as int].revision_id.0@);
            }
            assert(string_views(ids@).to_set() =~= candidates(m, next));
        }
        i = i + 1;
    }
    proof {
        assert(heads@.take(heads@.len() as int) =~= heads@);
    }
    let ghost cands = candidates(m, heads@);
    if ids.len() == 0 {
        proof {
            assert(string_views(ids@).to_set() =~= Set::<Seq<char>>::empty());
        }
        return None;
    }
    let mut best: usize = 0;
    let mut j: usize = 1;
    while j < ids.len()
        invariant
            revisions.wf(),
            m == revisions.view(),
            forall|q: int| 0 <= q < ids@.len() ==> m.contains_key(#[trigger] ids@[q]@),
            1 <= j <= ids@.len(),
            best < j,
            forall|q: int| 0 <= q < j ==> ids@[q]@ == ids@[best as int]@ || rank_order(m, #[trigger] ids@[q]@, ids@[best as int]@) < 0,
        decreases ids@.len() - j,
    {
        if ranks_below(revisions, ids[best].as_str(), ids[j].as_str()) {
            proof {
                assert forall|q: int| 0 <= q < j + 1 implies ids@[q]@ == ids@[j as int]@ || rank_order(m, #[trigger] ids@[q]@, ids@[j as int]@) < 0 by {
                    if q < j && ids@[q]@ != ids@[best as int]@ {
                        lemma_rank_order(m, ids@[q]@, ids@[best as int]@, ids@[j as int]@);
                    }
                }
            }
            best = j;
        } else {
            proof {
                lemma_rank_order(m, ids@[j as int]@, ids@[best as int]@, ids@[best as int]@);
                lemma_rank_order(m, ids@[best as int]@, ids@[j as int]@, ids@[best as int]@);
            }
        }
        j = j + 1;
    }
    let ghost w = ids@[best as int]@;
    proof {
        assert(string_views(ids@)[best as int] == w);
        assert(cands.contains(w));
        assert forall|c: Seq<char>| #[trigger] cands.contains(c) && c != w implies rank_order(m, c, w) < 0 by {
            assert(string_views(ids@).to_set().contains(c));
            let q = choose|q: int| 0 <= q < string_views(ids@).len() && string_views(ids@)[q] == c;
            assert(ids@[q]@ == c);
        }
        assert(is_winner(m, cands, w));
        lemma_winner_unique(m, cands, w, winner(m, cands));
    }
    let winning = ids[best].clone();
    let wchars = crate::text::chars_of(winning.as_str());
    let mut concurrent_ids: Vec<String> = Vec::new();
    let mut k: usize = 0;
    proof {
        assert(string_views(ids@).take(0).to_set().filter(|c: Seq<char>| c != w && !is_ancestor_spec(m, c, w))
            =~= Set::<Seq<char>>::empty());
        assert(string_views(concurrent_ids@).to_set() =~= Set::<Seq<char>>::empty());
    }
    while k < ids.len()
        invariant
            revisions.wf(),
            m == revisions.view(),
            winning@ == w,
            wchars@ == w,
            k <= ids@.len(),
            strictly_sorted(string_views(concurrent_ids@)),
            string_views(concurrent_ids@).to_set() == string_views(ids@).take(k as int).to_set().filter(
                |c: Seq<char>| c != w && !is_ancestor_spec(m, c, w),
            ),
        decreases ids@.len() - k,
    {
        let same = crate::text::eq_str(wchars.as_slice(), ids[k].as_str());
        let keep = !same && !is_ancestor(ids[k].as_str(), winning.as_str(), revisions);
        let ghost before = string_views(concurrent_ids@);
        let ghost x = ids@[k as int]@;
        if keep {
            insert_sorted(&mut concurrent_ids, ids[k].clone());
        }
        proof {
            let pred = |c: Seq<char>| c != w && !is_ancestor_spec(m, c, w);
            let prev = string_views(ids@).take(k as int);
            let next = string_views(ids@).take(k + 1);
            assert(next =~= prev.push(x));
            prev.lemma_push_to_set_commute(x);
            assert(keep == pred(x));
            if keep {
                assert(next.to_set().filter(pred) =~= prev.to_set().filter(pred).insert(x));
            } else {
                assert(next.to_set().filter(pred) =~= prev.to_set().filter(pred));
            }
        }
        k = k + 1;
    }
    proof {
        assert(string_views(ids@).take(ids@.len() as int) =~= string_views(ids@));
        assert(string_views(concurrent_ids@).to_set() =~= concurrent(m, cands, w));
    }
    let info = match revisions.get(winning.as_str()) {
        Some(info) => info,
        None => {
            return None;
        },
    };
    let visible = !info.deleted;
    if concurrent_ids.len() == 0 {
        proof {
            assert(string_views(concurrent_ids@).to_set() =~= Set::<Seq<char>>::empty());
        }
        return Some(ResolvedNote { winning_revision: RevisionId(winning), visible, conflict: None });
    }
    let mut revs: Vec<RevisionId> = Vec::new();
    let mut q: usize = 0;
    while q < concurrent_ids.len()
        invariant
            q <= concurrent_ids@.len(),
            revs@.map_values(|r: RevisionId| r.0@) == string_views(concurrent_ids@).take(q as int),
        decreases concurrent_ids@.len() - q,
    {
        let ghost before = revs@;
        revs.push(RevisionId(concurrent_ids[q].clone()));
        proof {
            assert(revs@ == before.push(RevisionId(concurrent_ids@[q as int])));
            assert(revs@.map_values(|r: RevisionId| r.0@) =~= before.map_values(|r: RevisionId| r.0@).push(concurrent_ids@[q as int]@));
            assert(string_views(concurrent_ids@).take(q + 1) =~= string_views(concurrent_ids@).take(q as int).push(concurrent_ids@[q as int]@));
        }
        q = q + 1;
    }
    proof {
        assert(string_views(concurrent_ids@).take(q as int) =~= string_views(concurrent_ids@));
        assert(string_views(concurrent_ids@)[0] == concurrent_ids@[0]@);
        assert(string_views(concurrent_ids@).to_set().contains(concurrent_ids@[0]@));
    }
    let conflict = Conflict {
        note_id: NoteId(info.note_id.0.clone()),
        winning_revision: RevisionId(winning.clone()),
        concurrent_revisions: revs,
    };
    Some(ResolvedNote { winning_revision: RevisionId(winning), visible, conflict: Some(conflict) })
}

} // verus!
