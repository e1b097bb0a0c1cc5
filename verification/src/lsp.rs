//! The editor-facing decisions of the Markdown language server: where an
//! editor position (line, UTF-16 column) falls in a document, whether it
//! stands inside a wikilink, which completions to offer in which order, and
//! which notes share an identifier.

use vstd::prelude::*;

use crate::markdown::{lowercase, lowercase_spec};
use crate::text::{
    byte_offsets, chars_of, compare_str, contains_spec, contains_str, insert_sorted,
    lemma_lex_order_antisym, lemma_lex_order_trans, lex_order, occurs_at_spec, string_range,
    string_views, strictly_sorted, utf8_len, Order,
};

verus! {

/// The number of UTF-16 code units of a character.
pub open spec fn utf16_width(c: char) -> int {
    if (c as u32) < 0x10000 {
        1
    } else {
        2
    }
}

/// The first line break at or after `p`, or the end.
pub open spec fn next_break(s: Seq<char>, p: int) -> int
    decreases s.len() - p,
{
    if p < 0 || p >= s.len() {
        s.len() as int
    } else if s[p] == '\n' {
        p
    } else {
        next_break(s, p + 1)
    }
}

proof fn lemma_next_break(s: Seq<char>, p: int)
    requires
        0 <= p <= s.len(),
    ensures
        p <= next_break(s, p) <= s.len(),
        next_break(s, p) < s.len() ==> s[next_break(s, p)] == '\n',
        forall|i: int| p <= i < next_break(s, p) ==> s[i] != '\n',
    decreases s.len() - p,
{
    if p < s.len() && s[p] != '\n' {
        lemma_next_break(s, p + 1);
    }
}

/// Where line `line` starts: after the `line`-th line break, or at the end
/// when there are fewer.
pub open spec fn line_start(s: Seq<char>, line: nat) -> int
    decreases line,
{
    if line == 0 {
        0
    } else {
        let p = line_start(s, (line - 1) as nat);
        let q = next_break(s, p);
        if q < s.len() {
            q + 1
        } else {
            s.len() as int
        }
    }
}

proof fn lemma_line_start_bounds(s: Seq<char>, line: nat)
    ensures
        0 <= line_start(s, line) <= s.len(),
    decreases line,
{
    if line > 0 {
        lemma_line_start_bounds(s, (line - 1) as nat);
        lemma_next_break(s, line_start(s, (line - 1) as nat));
    }
}

/// Once a line starts at the end, every later one does too.
proof fn lemma_line_start_end(s: Seq<char>, k: nat, line: nat)
    requires
        k <= line,
        line_start(s, k) == s.len(),
    ensures
        line_start(s, line) == s.len(),
    decreases line - k,
{
    if k < line {
        assert(next_break(s, s.len() as int) == s.len());
        assert(line_start(s, k + 1) == s.len());
        lemma_line_start_end(s, k + 1, line);
    }
}

/// The end of the walk along a line from `i`: characters are taken while
/// they are not a line break and their UTF-16 units, added to `used`, do not
/// pass `target`.
pub open spec fn walk(s: Seq<char>, i: int, used: int, target: int) -> int
    decreases s.len() - i,
{
    if i < 0 || i >= s.len() || s[i] == '\n' || used >= target || used + utf16_width(s[i]) > target {
        i
    } else {
        walk(s, i + 1, used + utf16_width(s[i]), target)
    }
}

proof fn lemma_walk_bounds(s: Seq<char>, i: int, used: int, target: int)
    requires
        0 <= i <= s.len(),
    ensures
        i <= walk(s, i, used, target) <= s.len(),
    decreases s.len() - i,
{
    if i < s.len() && s[i] != '\n' && used < target && used + utf16_width(s[i]) <= target {
        lemma_walk_bounds(s, i + 1, used + utf16_width(s[i]), target);
    }
}

/// The character position of an editor position.
pub open spec fn position_char(s: Seq<char>, line: nat, character: nat) -> int {
    walk(s, line_start(s, line), 0, character as int)
}

/// The byte offset of an editor position: line by line breaks, column by
/// UTF-16 units, stopping at the end of the line.
pub open spec fn offset_spec(s: Seq<char>, line: nat, character: nat) -> int {
    utf8_len(s.take(position_char(s, line, character))) as int
}

/// The character position of an editor position, and the characters.
fn position_in(chars: &Vec<char>, line: u32, character: u32) -> (result: usize)
    ensures
        result == position_char(chars@, line as nat, character as nat),
        result <= chars@.len(),
{
    let n = chars.len();
    let mut start: usize = 0;
    let mut k: u32 = 0;
    while k < line && start < n
        invariant
            k <= line,
            n == chars@.len(),
            start <= n,
            start == line_start(chars@, k as nat),
        decreases line - k,
    {
        proof {
            lemma_next_break(chars@, start as int);
        }
        let mut q = start;
        while q < n && chars[q] != '\n'
            invariant
                start <= q <= n,
                n == chars@.len(),
                next_break(chars@, q as int) == next_break(chars@, start as int),
            decreases n - q,
        {
            q = q + 1;
        }
        start = if q < n {
            q + 1
        } else {
            n
        };
        k = k + 1;
    }
    proof {
        if k < line {
            lemma_line_start_end(chars@, k as nat, line as nat);
        }
        lemma_walk_bounds(chars@, start as int, 0, character as int);
    }
    let ghost target = character as int;
    let mut i = start;
    let mut used: u64 = 0;
    let mut done = false;
    while !done && i < n && chars[i] != '\n' && used < character as u64
        invariant
            start <= i <= n,
            n == chars@.len(),
            target == character as int,
            used <= character,
            !done ==> walk(chars@, i as int, used as int, target) == position_char(chars@, line as nat, character as nat),
            done ==> i == position_char(chars@, line as nat, character as nat),
        decreases n - i, if done { 0int } else { 1int },
    {
        let code = chars[i] as u32;
        let units: u64 = if code < 0x10000 {
            1
        } else {
            2
        };
        if used + units > character as u64 {
            done = true;
        } else {
            used = used + units;
            i = i + 1;
        }
    }
    i
}

/// The byte offset of an editor position in `content`.
pub fn position_to_offset(content: &str, line: u32, character: u32) -> (result: usize)
    ensures
        result == offset_spec(content@, line as nat, character as nat),
{
    let chars = chars_of(content);
    let offsets = byte_offsets(content, &chars);
    let end = position_in(&chars, line, character);
    offsets[end]
}

/// The last position where `[[` opens, if any.
pub open spec fn last_open(p: Seq<char>) -> Option<int> {
    if exists|i: int| occurs_at_spec(p, "[["@, i) && forall|j: int| i < j ==> !occurs_at_spec(p, "[["@, j) {
        Some(choose|i: int| occurs_at_spec(p, "[["@, i) && forall|j: int| i < j ==> !occurs_at_spec(p, "[["@, j))
    } else {
        None
    }
}

/// Whether text ending here stands inside a wikilink: after the last `[[`
/// there is no `]]`.
pub open spec fn in_link(p: Seq<char>) -> bool {
    match last_open(p) {
        Some(i) => !contains_spec(p.skip(i + 2), "]]"@),
        None => false,
    }
}

/// Whether the text before the cursor stands inside a wikilink.
pub fn inside_link(prefix: &Vec<char>) -> (result: bool)
    ensures
        result == in_link(prefix@),
{
    proof {
        reveal_strlit("[[");
        assert("[["@ =~= seq!['[', '[']);
    }
    let n = prefix.len();
    if n < 2 {
        proof {
            assert forall|i: int| !occurs_at_spec(prefix@, "[["@, i) by {}
        }
        return false;
    }
    let mut i: usize = n - 1;
    while i > 0
        invariant
            1 <= n,
            i <= n - 1,
            n == prefix@.len(),
            "[["@ == seq!['[', '['],
            forall|j: int| i <= j ==> !occurs_at_spec(prefix@, "[["@, j),
        decreases i,
    {
        let j = i - 1;
        if prefix[j] == '[' && prefix[j + 1] == '[' {
            proof {
                assert(prefix@.subrange(j as int, j + 2) =~= "[["@);
                assert(occurs_at_spec(prefix@, "[["@, j as int));
                let k = choose|k: int| occurs_at_spec(prefix@, "[["@, k) && forall|m: int| k < m ==> !occurs_at_spec(prefix@, "[["@, m);
                assert(k == j as int) by {
                    if k > j {
                    } else if k < j {
                        assert(!occurs_at_spec(prefix@, "[["@, j as int));
                    }
                }
            }
            let rest = string_range(prefix.as_slice(), j + 2, n);
            proof {
                assert(rest@ =~= prefix@.skip(j + 2));
            }
            let rest_chars = chars_of(rest.as_str());
            return !contains_str(rest_chars.as_slice(), "]]");
        }
        proof {
            assert(!occurs_at_spec(prefix@, "[["@, j as int)) by {
                if occurs_at_spec(prefix@, "[["@, j as int) {
                    assert(prefix@.subrange(j as int, j + 2)[0] == prefix@[j as int]);
                    assert(prefix@.subrange(j as int, j + 2)[1] == prefix@[j + 1]);
                }
            }
        }
        i = j;
    }
    proof {
        assert forall|k: int| !(occurs_at_spec(prefix@, "[["@, k) && forall|m: int| k < m ==> !occurs_at_spec(prefix@, "[["@, m)) by {
            if occurs_at_spec(prefix@, "[["@, k) {
                assert(k >= 0);
            }
        }
    }
    false
}

/// A note as the language server indexes it.
#[derive(Clone, Debug, PartialEq, Eq)]
pub struct IndexedNote {
    pub id: String,
    pub title: String,
    /// The note's tags, in ascending order without repetition.
    pub tags: Vec<String>,
}

/// What completing at a position offers.
#[derive(Clone, Debug, PartialEq, Eq)]
pub enum Completions {
    /// Links to notes, by position in the index, ordered by lowercased
    /// title, then identifier.
    Links(Vec<usize>),
    /// Every tag of every note, in ascending order without repetition.
    Tags(Vec<String>),
}

/// Whether note `a` is offered before note `b` as a link: by lowercased
/// title, then identifier, then position in the index.
pub open spec fn link_precedes(notes: Seq<IndexedNote>, a: int, b: int) -> bool {
    let ka = lowercase_spec(notes[a].title@);
    let kb = lowercase_spec(notes[b].title@);
    ||| lex_order(ka, kb) < 0
    ||| (ka == kb && lex_order(notes[a].id@, notes[b].id@) < 0)
    ||| (ka == kb && notes[a].id@ == notes[b].id@ && a < b)
}

proof fn lemma_link_precedes_trans(notes: Seq<IndexedNote>, a: int, b: int, c: int)
    requires
        link_precedes(notes, a, b),
        link_precedes(notes, b, c),
    ensures
        link_precedes(notes, a, c),
{
    let ka = lowercase_spec(notes[a].title@);
    let kb = lowercase_spec(notes[b].title@);
    let kc = lowercase_spec(notes[c].title@);
    lemma_lex_order_antisym(ka, kb);
    lemma_lex_order_antisym(kb, kc);
    lemma_lex_order_antisym(ka, kc);
    lemma_lex_order_antisym(notes[a].id@, notes[b].id@);
    lemma_lex_order_antisym(notes[b].id@, notes[c].id@);
    lemma_lex_order_antisym(notes[a].id@, notes[c].id@);
    if lex_order(ka, kb) < 0 && lex_order(kb, kc) < 0 {
        lemma_lex_order_trans(ka, kb, kc);
    }
    if ka == kb && kb == kc && lex_order(notes[a].id@, notes[b].id@) < 0 && lex_order(notes[b].id@, notes[c].id@) < 0 {
        lemma_lex_order_trans(notes[a].id@, notes[b].id@, notes[c].id@);
    }
}

proof fn lemma_link_precedes_total(notes: Seq<IndexedNote>, a: int, b: int)
    requires
        a != b,
    ensures
        link_precedes(notes, a, b) || link_precedes(notes, b, a),
{
    lemma_lex_order_antisym(lowercase_spec(notes[a].title@), lowercase_spec(notes[b].title@));
    lemma_lex_order_antisym(notes[a].id@, notes[b].id@);
}

/// Whether `s` lists every position of `notes` once, in link order.
pub open spec fn link_order(notes: Seq<IndexedNote>, s: Seq<int>) -> bool {
    &&& s.len() == notes.len()
    &&& forall|i: int| 0 <= i < s.len() ==> 0 <= #[trigger] s[i] < notes.len()
    &&& forall|x: int| 0 <= x < notes.len() ==> s.contains(x)
    &&& forall|i: int, j: int| 0 <= i < j < s.len() ==> link_precedes(notes, #[trigger] s[i], #[trigger] s[j])
}

/// Positions as integers.
pub open spec fn as_ints(r: Seq<usize>) -> Seq<int> {
    r.map_values(|x: usize| x as int)
}

/// The set of every tag of every note.
pub open spec fn all_tags(notes: Seq<IndexedNote>) -> Set<Seq<char>> {
    Set::new(|t: Seq<char>| exists|i: int| 0 <= i < notes.len() && string_views((#[trigger] notes[i]).tags@).contains(t))
}

/// The link order of the notes.
fn link_positions(notes: &Vec<IndexedNote>) -> (result: Vec<usize>)
    ensures
        link_order(notes@, as_ints(result@)),
{
    let mut keys: Vec<String> = Vec::new();
    let mut i: usize = 0;
    while i < notes.len()
        invariant
            i <= notes@.len(),
            keys@.len() == i,
            forall|j: int| 0 <= j < i ==> (#[trigger] keys@[j])@ == lowercase_spec(notes@[j].title@),
        decreases notes@.len() - i,
    {
        keys.push(lowercase(notes[i].title.as_str()));
        i = i + 1;
    }
    let mut sorted: Vec<usize> = Vec::new();
    let mut i: usize = 0;
    while i < notes.len()
        invariant
            i <= notes@.len(),
            keys@.len() == notes@.len(),
            forall|j: int| 0 <= j < notes@.len() ==> (#[trigger] keys@[j])@ == lowercase_spec(notes@[j].title@),
            sorted@.len() == i,
            forall|m: int| 0 <= m < sorted@.len() ==> (#[trigger] sorted@[m]) < i,
            forall|x: int| 0 <= x < i ==> as_ints(sorted@).contains(x),
            forall|m: int, n: int| 0 <= m < n < sorted@.len() ==> link_precedes(notes@, #[trigger] sorted@[m] as int, #[trigger] sorted@[n] as int),
        decreases notes@.len() - i,
    {
        let mut p: usize = 0;
        while p < sorted.len() && !link_before(notes, &keys, i, sorted[p])
            invariant
                p <= sorted@.len(),
                i < notes@.len(),
                keys@.len() == notes@.len(),
                forall|j: int| 0 <= j < notes@.len() ==> (#[trigger] keys@[j])@ == lowercase_spec(notes@[j].title@),
                forall|m: int| 0 <= m < sorted@.len() ==> (#[trigger] sorted@[m]) < i,
                forall|m: int| 0 <= m < p ==> link_precedes(notes@, #[trigger] sorted@[m] as int, i as int),
            decreases sorted@.len() - p,
        {
            proof {
                lemma_link_precedes_total(notes@, i as int, sorted@[p as int] as int);
            }
            p = p + 1;
        }
        let ghost before = sorted@;
        sorted.insert(p, i);
        proof {
            assert(sorted@ =~= before.insert(p as int, i));
            assert forall|m: int, n: int| 0 <= m < n < sorted@.len() implies link_precedes(notes@, #[trigger] sorted@[m] as int, #[trigger] sorted@[n] as int) by {
                if n < p {
                    assert(sorted@[m] == before[m] && sorted@[n] == before[n]);
                } else if n == p {
                    assert(sorted@[m] == before[m]);
                } else if m < p {
                    assert(sorted@[m] == before[m] && sorted@[n] == before[n - 1]);
                    lemma_link_precedes_trans(notes@, before[m] as int, i as int, before[p as int] as int);
                    if n - 1 > p {
                        lemma_link_precedes_trans(notes@, before[m] as int, before[p as int] as int, before[n - 1] as int);
                    }
                } else if m == p {
                    assert(sorted@[n] == before[n - 1]);
                    if n - 1 > p {
                        lemma_link_precedes_trans(notes@, i as int, before[p as int] as int, before[n - 1] as int);
                    }
                } else {
                    assert(sorted@[m] == before[m - 1] && sorted@[n] == before[n - 1]);
                }
            }
            assert forall|m: int| 0 <= m < sorted@.len() implies (#[trigger] sorted@[m]) < i + 1 by {
                if m < p {
                    assert(sorted@[m] == before[m]);
                } else if m > p {
                    assert(sorted@[m] == before[m - 1]);
                }
            }
            assert forall|x: int| 0 <= x < i + 1 implies as_ints(sorted@).contains(x) by {
                if x < i {
                    assert(as_ints(before).contains(x));
                    let m = choose|m: int| 0 <= m < as_ints(before).len() && as_ints(before)[m] == x;
                    if m < p {
                        assert(as_ints(sorted@)[m] == x);
                    } else {
                        assert(as_ints(sorted@)[m + 1] == x);
                    }
                } else {
                    assert(as_ints(sorted@)[p as int] == x);
                }
            }
        }
        i = i + 1;
    }
    proof {
        assert forall|m: int, n: int| 0 <= m < n < as_ints(sorted@).len() implies link_precedes(notes@, #[trigger] as_ints(sorted@)[m], #[trigger] as_ints(sorted@)[n]) by {
            assert(as_ints(sorted@)[m] == sorted@[m] as int);
            assert(as_ints(sorted@)[n] == sorted@[n] as int);
        }
        assert forall|m: int| 0 <= m < as_ints(sorted@).len() implies 0 <= #[trigger] as_ints(sorted@)[m] < notes@.len() by {
            assert(as_ints(sorted@)[m] == sorted@[m] as int);
        }
    }
    sorted
}

/// Whether note `a` comes before note `b` as a link, given lowercased titles.
fn link_before(notes: &Vec<IndexedNote>, keys: &Vec<String>, a: usize, b: usize) -> (result: bool)
    requires
        a < notes@.len(),
        b < notes@.len(),
        keys@.len() == notes@.len(),
        forall|j: int| 0 <= j < notes@.len() ==> (#[trigger] keys@[j])@ == lowercase_spec(notes@[j].title@),
    ensures
        result == link_precedes(notes@, a as int, b as int),
{
    proof {
        lemma_lex_order_antisym(keys@[a as int]@, keys@[b as int]@);
        lemma_lex_order_antisym(notes@[a as int].id@, notes@[b as int].id@);
    }
    match compare_str(keys[a].as_str(), keys[b].as_str()) {
        Order::Less => true,
        Order::Greater => false,
        Order::Equal => match compare_str(notes[a].id.as_str(), notes[b].id.as_str()) {
            Order::Less => true,
            Order::Greater => false,
            Order::Equal => a < b,
        },
    }
}

/// Every tag of every note.
fn tag_union(notes: &Vec<IndexedNote>) -> (result: Vec<String>)
    ensures
        strictly_sorted(string_views(result@)),
        string_views(result@).to_set() == all_tags(notes@),
{
    let mut tags: Vec<String> = Vec::new();
    let mut i: usize = 0;
    proof {
        assert(string_views(tags@).to_set() =~= all_tags(notes@.take(0)));
    }
    while i < notes.len()
        invariant
            i <= notes@.len(),
            strictly_sorted(string_views(tags@)),
            string_views(tags@).to_set() == all_tags(notes@.take(i as int)),
        decreases notes@.len() - i,
    {
        let ghost before = string_views(tags@).to_set();
        let mut k: usize = 0;
        while k < notes[i].tags.len()
            invariant
                i < notes@.len(),
                k <= notes@[i as int].tags@.len(),
                strictly_sorted(string_views(tags@)),
                string_views(tags@).to_set() == before.union(string_views(notes@[i as int].tags@.take(k as int)).to_set()),
            decreases notes@[i as int].tags@.len() - k,
        {
            let tag = notes[i].tags[k].clone();
            let ghost t = tag@;
            let ghost prior = string_views(tags@).to_set();
            insert_sorted(&mut tags, tag);
            proof {
                let items = notes@[i as int].tags@;
                assert(string_views(items.take(k + 1)) =~= string_views(items.take(k as int)).push(t));
                string_views(items.take(k as int)).lemma_push_to_set_commute(t);
                assert(string_views(tags@).to_set() =~= before.union(string_views(items.take(k + 1)).to_set()));
            }
            k = k + 1;
        }
        proof {
            let items = notes@[i as int].tags@;
            assert(items.take(k as int) =~= items);
            assert forall|t: Seq<char>| #[trigger] all_tags(notes@.take(i + 1)).contains(t) <==> before.union(string_views(items).to_set()).contains(t) by {
                if all_tags(notes@.take(i + 1)).contains(t) {
                    let j = choose|j: int| 0 <= j < notes@.take(i + 1).len() && string_views((#[trigger] notes@.take(i + 1)[j]).tags@).contains(t);
                    if j < i {
                        assert(notes@.take(i as int)[j] == notes@[j]);
                        assert(all_tags(notes@.take(i as int)).contains(t));
                    }
                }
                if before.contains(t) {
                    let j = choose|j: int| 0 <= j < notes@.take(i as int).len() && string_views((#[trigger] notes@.take(i as int)[j]).tags@).contains(t);
                    assert(notes@.take(i + 1)[j] == notes@[j]);
                }
                if string_views(items).to_set().contains(t) {
                    assert(notes@.take(i + 1)[i as int] == notes@[i as int]);
                }
            }
            assert(all_tags(notes@.take(i + 1)) =~= before.union(string_views(items).to_set()));
        }
        i = i + 1;
    }
    proof {
        assert(notes@.take(i as int) =~= notes@);
    }
    tags
}

/// What completing at an editor position of `content` offers: links inside
/// a wikilink, tags elsewhere.
pub fn completions(notes: &Vec<IndexedNote>, content: &str, line: u32, character: u32) -> (result: Completions)
    ensures
        ({
            let prefix = content@.take(position_char(content@, line as nat, character as nat));
            if in_link(prefix) {
                result matches Completions::Links(r) && link_order(notes@, as_ints(r@))
            } else {
                result matches Completions::Tags(t) && strictly_sorted(string_views(t@))
                    && string_views(t@).to_set() == all_tags(notes@)
            }
        }),
{
    let chars = chars_of(content);
    let end = position_in(&chars, line, character);
    let text = string_range(chars.as_slice(), 0, end);
    let prefix = chars_of(text.as_str());
    assert(prefix@ =~= content@.take(end as int));
    if inside_link(&prefix) {
        Completions::Links(link_positions(notes))
    } else {
        Completions::Tags(tag_union(notes))
    }
}

/// Whether the note at `i` shares its identifier with another.
pub open spec fn shares_id(ids: Seq<Seq<char>>, i: int) -> bool {
    exists|j: int| 0 <= j < ids.len() && j != i && ids[j] == ids[i]
}

/// For each note, whether another note has the same identifier; each such
/// note is diagnosed.
pub fn shared_ids(ids: &Vec<String>) -> (result: Vec<bool>)
    ensures
        result@.len() == ids@.len(),
        forall|i: int| 0 <= i < ids@.len() ==> result@[i] == shares_id(string_views(ids@), i),
{
    let ghost v = string_views(ids@);
    let mut result: Vec<bool> = Vec::new();
    let mut i: usize = 0;
    while i < ids.len()
        invariant
            i <= ids@.len(),
            v == string_views(ids@),
            result@.len() == i,
            forall|m: int| 0 <= m < i ==> result@[m] == shares_id(v, m),
        decreases ids@.len() - i,
    {
        let mine = chars_of(ids[i].as_str());
        let mut shared = false;
        let mut j: usize = 0;
        while j < ids.len() && !shared
            invariant
                i < ids@.len(),
                j <= ids@.len(),
                v == string_views(ids@),
                mine@ == v[i as int],
                shared ==> shares_id(v, i as int),
                !shared ==> forall|k: int| 0 <= k < j && k != i ==> v[k] != v[i as int],
            decreases ids@.len() - j,
        {
            if j != i && crate::text::eq_str(mine.as_slice(), ids[j].as_str()) {
                assert(v[j as int] == v[i as int]);
                shared = true;
            }
            j = j + 1;
        }
        result.push(shared);
        i = i + 1;
    }
    result
}

} // verus!
