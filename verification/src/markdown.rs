//! Markdown notes: file-name slugs derived from titles.

use vstd::prelude::*;

use crate::domain::{FrontmatterValue, NoteId};
use crate::text::{chars_of, is_ascii_alnum, is_prefix, occurs_at_spec, push_str, starts_with_str, string_range};

verus! {

/// The longest slug, in characters.
pub const SLUG_MAX_CHARS: usize = 50;

/// What `str::to_lowercase` returns for a string (Unicode lowercase mapping).
pub uninterp spec fn lowercase_spec(s: Seq<char>) -> Seq<char>;

/// What `char::is_alphanumeric` returns for a character beyond ASCII
/// (Unicode `Alphabetic` or `Numeric`).
pub uninterp spec fn non_ascii_alphanumeric(c: char) -> bool;

/// Whether a character is alphanumeric: among ASCII characters exactly the
/// letters and digits are.
pub open spec fn alphanumeric_spec(c: char) -> bool {
    if (c as u32) < 128 {
        is_ascii_alnum(c)
    } else {
        non_ascii_alphanumeric(c)
    }
}

/// `str::to_lowercase`: the Unicode lowercase mapping of every character.
/// On ASCII text that mapping makes the capitals lowercase and keeps every
/// other character.
#[verifier::external_body]
pub(crate) fn lowercase(value: &str) -> (result: String)
    ensures
        result@ == lowercase_spec(value@),
        (forall|i: int| 0 <= i < value@.len() ==> (#[trigger] value@[i] as u32) < 128) ==> result@ == value@.map_values(
            |c: char| crate::text::ascii_lower(c),
        ),
{
    value.to_lowercase()
}

/// `char::is_alphanumeric`. Among ASCII characters exactly the letters and
/// digits are alphanumeric, as its documentation states.
#[verifier::external_body]
fn is_alphanumeric(c: char) -> (result: bool)
    ensures
        result == (if (c as u32) < 128 {
            is_ascii_alnum(c)
        } else {
            non_ascii_alphanumeric(c)
        }),
{
    c.is_alphanumeric()
}

/// The slug built so far after reading `chars`: alphanumeric characters are
/// kept, every other run becomes one `-` (none before the first kept
/// character), and reading stops once the slug holds fifty characters.
pub open spec fn slug_scan(chars: Seq<char>, slug: Seq<char>, dash: bool) -> Seq<char>
    decreases chars.len(),
{
    if chars.len() == 0 {
        slug
    } else {
        let c = chars[0];
        let (next, next_dash) = if alphanumeric_spec(c) {
            (slug.push(c), false)
        } else if !dash && slug.len() > 0 {
            (slug.push('-'), true)
        } else {
            (slug, dash)
        };
        if next.len() >= 50 {
            next
        } else {
            slug_scan(chars.drop_first(), next, next_dash)
        }
    }
}

/// `s` without its trailing dashes.
pub open spec fn trim_dashes(s: Seq<char>) -> Seq<char>
    decreases s.len(),
{
    if s.len() > 0 && s.last() == '-' {
        trim_dashes(s.drop_last())
    } else {
        s
    }
}

/// The slug of a title.
pub open spec fn slug_spec(value: Seq<char>) -> Seq<char> {
    trim_dashes(slug_scan(lowercase_spec(value), Seq::empty(), false))
}

/// The shape every slug has: at most fifty characters, each alphanumeric or
/// a dash, with no dash first, last or next to another dash.
pub open spec fn is_slug_shaped(s: Seq<char>) -> bool {
    &&& s.len() <= 50
    &&& forall|i: int| 0 <= i < s.len() ==> alphanumeric_spec(#[trigger] s[i]) || s[i] == '-'
    &&& s.len() > 0 ==> s[0] != '-' && s.last() != '-'
    &&& forall|i: int| 0 <= i < s.len() - 1 ==> !(#[trigger] s[i] == '-' && s[i + 1] == '-')
}

/// What holds of the slug while it is built.
spec fn scan_state(slug: Seq<char>, dash: bool) -> bool {
    &&& slug.len() <= 50
    &&& forall|i: int| 0 <= i < slug.len() ==> alphanumeric_spec(#[trigger] slug[i]) || slug[i] == '-'
    &&& slug.len() > 0 ==> slug[0] != '-'
    &&& forall|i: int| 0 <= i < slug.len() - 1 ==> !(#[trigger] slug[i] == '-' && slug[i + 1] == '-')
    &&& dash <==> (slug.len() > 0 && slug.last() == '-')
}

proof fn lemma_scan_keeps_state(chars: Seq<char>, slug: Seq<char>, dash: bool)
    requires
        scan_state(slug, dash),
        slug.len() < 50,
    ensures
        scan_state(slug_scan(chars, slug, dash), slug_scan(chars, slug, dash).len() > 0 && slug_scan(chars, slug, dash).last() == '-'),
    decreases chars.len(),
{
    if chars.len() > 0 {
        let c = chars[0];
        let (next, next_dash) = if alphanumeric_spec(c) {
            (slug.push(c), false)
        } else if !dash && slug.len() > 0 {
            (slug.push('-'), true)
        } else {
            (slug, dash)
        };
        assert(scan_state(next, next_dash)) by {
            if alphanumeric_spec(c) || (!dash && slug.len() > 0) {
                assert forall|i: int| 0 <= i < next.len() - 1 implies !(#[trigger] next[i] == '-' && next[i + 1] == '-') by {
                    if i < slug.len() - 1 {
                        assert(next[i] == slug[i] && next[i + 1] == slug[i + 1]);
                    }
                }
                assert forall|i: int| 0 <= i < next.len() implies alphanumeric_spec(#[trigger] next[i]) || next[i] == '-' by {
                    if i < slug.len() {
                        assert(next[i] == slug[i]);
                    }
                }
            }
        }
        if next.len() < 50 {
            lemma_scan_keeps_state(chars.drop_first(), next, next_dash);
        }
    }
}

proof fn lemma_trim_dashes(s: Seq<char>)
    requires
        scan_state(s, s.len() > 0 && s.last() == '-'),
    ensures
        is_slug_shaped(trim_dashes(s)),
        trim_dashes(s).len() <= s.len(),
{
    if s.len() > 0 && s.last() == '-' {
        let t = s.drop_last();
        if t.len() > 0 {
            assert(!(s[t.len() - 1] == '-' && s[t.len() as int] == '-'));
            assert(t.last() != '-');
        }
        assert(trim_dashes(t) == t);
        assert forall|i: int| 0 <= i < t.len() implies alphanumeric_spec(#[trigger] t[i]) || t[i] == '-' by {
            assert(t[i] == s[i]);
        }
        assert forall|i: int| 0 <= i < t.len() - 1 implies !(#[trigger] t[i] == '-' && t[i + 1] == '-') by {
            assert(t[i] == s[i] && t[i + 1] == s[i + 1]);
        }
    }
}

/// Every slug is at most fifty characters long, made of alphanumeric
/// characters and single dashes, and neither starts nor ends with a dash.
pub proof fn lemma_slugs_are_normalized_and_bounded(value: Seq<char>)
    ensures
        is_slug_shaped(slug_spec(value)),
{
    let empty = Seq::<char>::empty();
    lemma_scan_keeps_state(lowercase_spec(value), empty, false);
    lemma_trim_dashes(slug_scan(lowercase_spec(value), empty, false));
}

/// The alphanumeric characters of `s`, in order.
pub open spec fn alphanumerics(s: Seq<char>) -> Seq<char>
    decreases s.len(),
{
    if s.len() == 0 {
        Seq::empty()
    } else if alphanumeric_spec(s.last()) {
        alphanumerics(s.drop_last()).push(s.last())
    } else {
        alphanumerics(s.drop_last())
    }
}

/// Whether `p` begins `q`.
pub open spec fn begins(p: Seq<char>, q: Seq<char>) -> bool {
    p.len() <= q.len() && q.take(p.len() as int) == p
}

proof fn lemma_alphanumerics_concat(a: Seq<char>, b: Seq<char>)
    ensures
        alphanumerics(a + b) == alphanumerics(a) + alphanumerics(b),
    decreases b.len(),
{
    if b.len() == 0 {
        assert(a + b =~= a);
        assert(alphanumerics(a) + alphanumerics(b) =~= alphanumerics(a));
    } else {
        lemma_alphanumerics_concat(a, b.drop_last());
        assert((a + b).drop_last() =~= a + b.drop_last());
        assert((a + b).last() == b.last());
        if alphanumeric_spec(b.last()) {
            assert(alphanumerics(a) + alphanumerics(b) =~= (alphanumerics(a) + alphanumerics(b.drop_last())).push(b.last()));
        }
    }
}

proof fn lemma_alphanumerics_of_char(c: char)
    ensures
        alphanumerics(seq![c]) == if alphanumeric_spec(c) { seq![c] } else { Seq::<char>::empty() },
{
    assert(seq![c].drop_last() =~= Seq::<char>::empty());
    assert(alphanumerics(Seq::<char>::empty()) =~= Seq::<char>::empty());
    assert(seq![c].last() == c);
    assert(Seq::<char>::empty().push(c) =~= seq![c]);
}

/// What the scan keeps of the characters it reads: their alphanumeric
/// characters, in order, all of them unless it stops at the bound; and it
/// never adds more characters than it reads.
proof fn lemma_scan_alphanumerics(chars: Seq<char>, slug: Seq<char>, dash: bool)
    requires
        slug.len() < 50,
    ensures
        begins(alphanumerics(slug_scan(chars, slug, dash)), alphanumerics(slug) + alphanumerics(chars)),
        slug_scan(chars, slug, dash).len() <= slug.len() + chars.len(),
        slug_scan(chars, slug, dash).len() < 50 ==> alphanumerics(slug_scan(chars, slug, dash)) == alphanumerics(slug)
            + alphanumerics(chars),
    decreases chars.len(),
{
    if chars.len() == 0 {
        assert(alphanumerics(chars) =~= Seq::<char>::empty());
        assert(alphanumerics(slug) + alphanumerics(chars) =~= alphanumerics(slug));
        assert(alphanumerics(slug).take(alphanumerics(slug).len() as int) =~= alphanumerics(slug));
    } else {
        let c = chars[0];
        let rest = chars.drop_first();
        assert(chars =~= seq![c] + rest);
        lemma_alphanumerics_concat(seq![c], rest);
        lemma_alphanumerics_of_char(c);
        assert('-' as u32 == 45);
        let (next, next_dash) = if alphanumeric_spec(c) {
            (slug.push(c), false)
        } else if !dash && slug.len() > 0 {
            (slug.push('-'), true)
        } else {
            (slug, dash)
        };
        assert(alphanumerics(next) == alphanumerics(slug) + alphanumerics(seq![c])) by {
            if alphanumeric_spec(c) {
                assert(slug.push(c).drop_last() =~= slug);
                assert(alphanumerics(slug) + seq![c] =~= alphanumerics(slug).push(c));
            } else if !dash && slug.len() > 0 {
                assert(slug.push('-').drop_last() =~= slug);
                assert(!alphanumeric_spec('-'));
                assert(alphanumerics(slug) + Seq::<char>::empty() =~= alphanumerics(slug));
            } else {
                assert(alphanumerics(slug) + Seq::<char>::empty() =~= alphanumerics(slug));
            }
        }
        let whole = alphanumerics(slug) + alphanumerics(chars);
        assert(whole =~= alphanumerics(next) + alphanumerics(rest));
        if next.len() >= 50 {
            assert(whole.take(alphanumerics(next).len() as int) =~= alphanumerics(next));
        } else {
            lemma_scan_alphanumerics(rest, next, next_dash);
        }
    }
}

proof fn lemma_trim_keeps_alphanumerics(s: Seq<char>)
    ensures
        alphanumerics(trim_dashes(s)) == alphanumerics(s),
    decreases s.len(),
{
    if s.len() > 0 && s.last() == '-' {
        assert('-' as u32 == 45);
        assert(!alphanumeric_spec(s.last()));
        lemma_trim_keeps_alphanumerics(s.drop_last());
    }
}

/// The slug of a title keeps the alphanumeric characters of the lowercased
/// title, in order: a prefix of them always, and all of them when the
/// lowercased title is shorter than the bound.
pub proof fn lemma_slug_keeps_alphanumerics(value: Seq<char>)
    ensures
        begins(alphanumerics(slug_spec(value)), alphanumerics(lowercase_spec(value))),
        lowercase_spec(value).len() < 50 ==> alphanumerics(slug_spec(value)) == alphanumerics(lowercase_spec(value)),
{
    let lowered = lowercase_spec(value);
    lemma_scan_alphanumerics(lowered, Seq::empty(), false);
    assert(alphanumerics(Seq::<char>::empty()) + alphanumerics(lowered) =~= alphanumerics(lowered));
    lemma_trim_keeps_alphanumerics(slug_scan(lowered, Seq::empty(), false));
}

/// A text of at most fifty alphanumeric characters is read in full.
proof fn lemma_scan_alphanumeric_text(chars: Seq<char>, slug: Seq<char>, dash: bool)
    requires
        slug.len() < 50,
        slug.len() + chars.len() <= 50,
        forall|i: int| 0 <= i < chars.len() ==> alphanumeric_spec(#[trigger] chars[i]),
    ensures
        slug_scan(chars, slug, dash) == slug + chars,
    decreases chars.len(),
{
    if chars.len() == 0 {
        assert(slug + chars =~= slug);
    } else {
        let rest = chars.drop_first();
        assert(alphanumeric_spec(chars[0]));
        assert(slug.push(chars[0]) + rest =~= slug + chars);
        if slug.len() + 1 < 50 {
            assert forall|i: int| 0 <= i < rest.len() implies alphanumeric_spec(#[trigger] rest[i]) by {
                assert(rest[i] == chars[i + 1]);
            }
            lemma_scan_alphanumeric_text(rest, slug.push(chars[0]), false);
        } else {
            assert(rest.len() == 0);
        }
    }
}

/// A title whose lowercase form is at most fifty letters and digits is its
/// own slug.
pub proof fn lemma_alphanumeric_title_is_its_slug(value: Seq<char>)
    requires
        lowercase_spec(value).len() <= 50,
        forall|i: int| 0 <= i < lowercase_spec(value).len() ==> alphanumeric_spec(#[trigger] lowercase_spec(value)[i]),
    ensures
        slug_spec(value) == lowercase_spec(value),
{
    let lowered = lowercase_spec(value);
    lemma_scan_alphanumeric_text(lowered, Seq::empty(), false);
    assert(Seq::<char>::empty() + lowered =~= lowered);
    if lowered.len() > 0 {
        assert(alphanumeric_spec(lowered.last()));
        assert('-' as u32 == 45);
    }
}

/// Reading a run of letters and digits appends it to the slug.
proof fn lemma_scan_word(a: Seq<char>, rest: Seq<char>, slug: Seq<char>, dash: bool)
    requires
        a.len() > 0,
        forall|i: int| 0 <= i < a.len() ==> alphanumeric_spec(#[trigger] a[i]),
        slug.len() + a.len() < 50,
    ensures
        slug_scan(a + rest, slug, dash) == slug_scan(rest, slug + a, false),
    decreases a.len(),
{
    let chars = a + rest;
    assert(chars[0] == a[0]);
    assert(alphanumeric_spec(a[0]));
    if a.len() == 1 {
        assert(chars.drop_first() =~= rest);
        assert(slug.push(a[0]) =~= slug + a);
    } else {
        let a1 = a.drop_first();
        assert forall|i: int| 0 <= i < a1.len() implies alphanumeric_spec(#[trigger] a1[i]) by {
            assert(a1[i] == a[i + 1]);
        }
        assert(chars.drop_first() =~= a1 + rest);
        lemma_scan_word(a1, rest, slug.push(a[0]), false);
        assert(slug.push(a[0]) + a1 =~= slug + a);
    }
}

/// Two words of letters and digits with one other character between them
/// become the two words joined by a dash, within the bound.
pub proof fn lemma_words_joined_by_dash(value: Seq<char>, a: Seq<char>, sep: char, b: Seq<char>)
    requires
        lowercase_spec(value) == a + seq![sep] + b,
        a.len() > 0,
        b.len() > 0,
        forall|i: int| 0 <= i < a.len() ==> alphanumeric_spec(#[trigger] a[i]),
        forall|i: int| 0 <= i < b.len() ==> alphanumeric_spec(#[trigger] b[i]),
        !alphanumeric_spec(sep),
        a.len() + b.len() + 1 <= 50,
    ensures
        slug_spec(value) == a + seq!['-'] + b,
{
    let rest = seq![sep] + b;
    assert(lowercase_spec(value) =~= a + rest);
    lemma_scan_word(a, rest, Seq::empty(), false);
    assert(Seq::<char>::empty() + a =~= a);
    assert(rest[0] == sep);
    assert(rest.drop_first() =~= b);
    assert(slug_scan(rest, a, false) == slug_scan(b, a.push('-'), true));
    lemma_scan_alphanumeric_text(b, a.push('-'), true);
    assert(a.push('-') + b =~= a + seq!['-'] + b);
    let r = a + seq!['-'] + b;
    assert(r.last() == b.last());
    assert(alphanumeric_spec(b[b.len() - 1]));
    assert('-' as u32 == 45);
}

/// A file-name slug for a title: lowercase, alphanumeric runs joined by
/// single dashes, at most fifty characters.
pub fn slugify(value: &str) -> (result: String)
    ensures
        result@ == slug_spec(value@),
        is_slug_shaped(result@),
        value@.len() <= 50 && (forall|i: int|
            0 <= i < value@.len() ==> ('a' <= #[trigger] value@[i] <= 'z' || '0' <= value@[i] <= '9')) ==> result@
            == value@,
{
    let lowered = lowercase(value);
    proof {
        if value@.len() <= 50 && (forall|i: int| 0 <= i < value@.len() ==> ('a' <= #[trigger] value@[i] <= 'z' || '0' <= value@[i] <= '9')) {
            assert forall|i: int| 0 <= i < value@.len() implies (#[trigger] value@[i] as u32) < 128 by {
                assert('a' <= value@[i] <= 'z' || '0' <= value@[i] <= '9');
            }
            assert(lowered@ =~= value@) by {
                assert forall|i: int| 0 <= i < value@.len() implies lowered@[i] == value@[i] by {
                    assert(lowered@[i] == crate::text::ascii_lower(value@[i]));
                }
            }
            assert forall|i: int| 0 <= i < value@.len() implies alphanumeric_spec(#[trigger] lowercase_spec(value@)[i]) by {
                assert(lowercase_spec(value@)[i] == value@[i]);
            }
            lemma_alphanumeric_title_is_its_slug(value@);
        }
    }
    let chars = chars_of(lowered.as_str());
    let mut slug: Vec<char> = Vec::new();
    let mut dash = false;
    let mut i: usize = 0;
    proof {
        assert(chars@.skip(0) =~= chars@);
    }
    while i < chars.len()
        invariant_except_break
            i <= chars@.len(),
            slug@.len() < 50,
            slug_scan(chars@.skip(i as int), slug@, dash) == slug_scan(chars@, Seq::empty(), false),
        ensures
            slug_scan(chars@, Seq::empty(), false) == slug@,
        decreases chars@.len() - i,
    {
        let c = chars[i];
        proof {
            assert(chars@.skip(i as int)[0] == c);
            assert(chars@.skip(i as int).drop_first() =~= chars@.skip(i + 1));
        }
        if is_alphanumeric(c) {
            slug.push(c);
            dash = false;
        } else if !dash && slug.len() > 0 {
            slug.push('-');
            dash = true;
        }
        i = i + 1;
        if slug.len() >= SLUG_MAX_CHARS {
            break;
        }
    }
    let mut end = slug.len();
    proof {
        assert(slug@.take(slug@.len() as int) =~= slug@);
    }
    while end > 0 && slug[end - 1] == '-'
        invariant
            end <= slug@.len(),
            trim_dashes(slug@.take(end as int)) == trim_dashes(slug@),
        decreases end,
    {
        proof {
            assert(slug@.take(end as int).drop_last() =~= slug@.take(end - 1));
        }
        end = end - 1;
    }
    proof {
        lemma_slugs_are_normalized_and_bounded(value@);
    }
    let result = string_range(slug.as_slice(), 0, end);
    proof {
        assert(slug@.subrange(0, end as int) =~= slug@.take(end as int));
        assert(slug@.take(end as int) == trim_dashes(slug@.take(end as int)));
    }
    result
}

/// The first position where `pattern` occurs in `s`.
pub open spec fn first_occurrence(s: Seq<char>, pattern: Seq<char>) -> Option<int> {
    if exists|i: int| occurs_at_spec(s, pattern, i) && forall|j: int| 0 <= j < i ==> !occurs_at_spec(s, pattern, j) {
        Some(choose|i: int| occurs_at_spec(s, pattern, i) && forall|j: int| 0 <= j < i ==> !occurs_at_spec(s, pattern, j))
    } else {
        None
    }
}

/// The frontmatter text and body of a note: the text between a leading
/// `---` and the next `---`, and what follows, without one line break.
pub open spec fn frontmatter_split(content: Seq<char>) -> Option<(Seq<char>, Seq<char>)> {
    if !is_prefix("---"@, content) {
        None
    } else {
        let rest = content.skip(3);
        match first_occurrence(rest, "---"@) {
            None => None,
            Some(end) => {
                let after = rest.skip(end + 3);
                Some((rest.take(end), if after.len() > 0 && after[0] == '\n' {
                    after.drop_first()
                } else {
                    after
                }))
            },
        }
    }
}

/// Split a note into its raw frontmatter and its body, where it has a
/// `---` fenced frontmatter block.
pub fn split_frontmatter(content: &str) -> (result: Option<(String, String)>)
    ensures
        match frontmatter_split(content@) {
            Some((raw, body)) => result matches Some((r, b)) && r@ == raw && b@ == body,
            None => result is None,
        },
{
    proof {
        reveal_strlit("---");
        assert("---"@ =~= seq!['-', '-', '-']);
    }
    let chars = chars_of(content);
    if !starts_with_str(chars.as_slice(), "---") {
        return None;
    }
    let ghost rest = content@.skip(3);
    let n = chars.len();
    let mut i: usize = 3;
    while n >= 3 && i <= n - 3
        invariant
            3 <= i,
            n == chars@.len(),
            "---"@ == seq!['-', '-', '-'],
            is_prefix("---"@, content@),
            chars@ == content@,
            rest == content@.skip(3),
            forall|j: int| 0 <= j < i - 3 ==> !occurs_at_spec(rest, "---"@, j),
        decreases n - i,
    {
        if chars[i] == '-' && chars[i + 1] == '-' && chars[i + 2] == '-' {
            let end = i - 3;
            proof {
                assert(rest.subrange(end as int, end + 3) =~= "---"@);
                assert(occurs_at_spec(rest, "---"@, end as int));
                let k = choose|k: int| occurs_at_spec(rest, "---"@, k) && forall|j: int| 0 <= j < k ==> !occurs_at_spec(rest, "---"@, j);
                assert(k == end as int) by {
                    if k < end {
                    } else if k > end {
                        assert(!occurs_at_spec(rest, "---"@, end as int));
                    }
                }
            }
            let raw = string_range(chars.as_slice(), 3, i);
            assert(raw@ =~= rest.take(end as int));
            let start = if i + 3 < n && chars[i + 3] == '\n' {
                i + 4
            } else {
                i + 3
            };
            let body = string_range(chars.as_slice(), start, n);
            proof {
                let after = rest.skip(end + 3);
                assert(after =~= content@.skip(i + 3));
                if i + 3 < n && chars@[i + 3] == '\n' {
                    assert(body@ =~= after.drop_first());
                } else {
                    assert(body@ =~= after);
                }
            }
            return Some((raw, body));
        }
        proof {
            assert(!occurs_at_spec(rest, "---"@, i - 3)) by {
                if occurs_at_spec(rest, "---"@, i - 3) {
                    assert(rest.subrange(i - 3, i as int)[0] == chars@[i as int]);
                    assert(rest.subrange(i - 3, i as int)[1] == chars@[i + 1]);
                    assert(rest.subrange(i - 3, i as int)[2] == chars@[i + 2]);
                }
            }
        }
        i = i + 1;
    }
    proof {
        assert forall|j: int| !(occurs_at_spec(rest, "---"@, j) && forall|m: int| 0 <= m < j ==> !occurs_at_spec(rest, "---"@, m)) by {
            if occurs_at_spec(rest, "---"@, j) {
                assert(j < i - 3);
            }
        }
    }
    None
}

/// Where a note is projected: the first three characters of its identifier
/// as a directory, then the identifier and the slug of its title (or
/// `untitled`).
pub open spec fn canonical_path_spec(id: Seq<char>, title: Option<Seq<char>>) -> Seq<char> {
    let slug = slug_spec(
        match title {
            Some(t) => t,
            None => "untitled"@,
        },
    );
    let name = if slug.len() == 0 {
        "untitled"@
    } else {
        slug
    };
    id.take(if id.len() < 3 { id.len() as int } else { 3 }) + "/"@ + id + "-"@ + name + ".md"@
}

/// The projection path of a note with this identifier and string title.
pub fn canonical_note_path(id: &NoteId, title: Option<&str>) -> (result: String)
    ensures
        result@ == canonical_path_spec(id.0@, match title {
            Some(t) => Some(t@),
            None => None,
        }),
{
    let slug = match title {
        Some(t) => slugify(t),
        None => slugify("untitled"),
    };
    let name = if slug.as_str().is_empty() {
        "untitled".to_owned()
    } else {
        slug
    };
    let chars = chars_of(id.0.as_str());
    let take = if chars.len() < 3 {
        chars.len()
    } else {
        3
    };
    let mut out = string_range(chars.as_slice(), 0, take);
    push_str(&mut out, "/");
    push_str(&mut out, id.0.as_str());
    push_str(&mut out, "-");
    push_str(&mut out, name.as_str());
    push_str(&mut out, ".md");
    proof {
        assert(chars@.subrange(0, take as int) =~= id.0@.take(take as int));
    }
    out
}

/// A note read from Markdown: its frontmatter, when it has a block of it, in
/// key order, and its body.
#[derive(Debug, PartialEq)]
pub struct MarkdownDocument {
    pub frontmatter: Option<Vec<(String, FrontmatterValue)>>,
    pub body: String,
}

/// Why the frontmatter of a note could not be read.
#[derive(Clone, Debug, PartialEq, Eq)]
pub enum MarkdownError {
    InvalidYaml(String),
    NonStringKey,
    UnsupportedValue,
}

impl MarkdownError {
    /// The error's text.
    pub fn message(&self) -> (result: String)
        ensures
            match self {
                MarkdownError::InvalidYaml(detail) => result@ == "invalid YAML frontmatter: "@ + detail@,
                MarkdownError::NonStringKey => result@ == "frontmatter keys must be strings"@,
                MarkdownError::UnsupportedValue => result@ == "unsupported YAML value"@,
            },
    {
        match self {
            MarkdownError::InvalidYaml(detail) => {
                let mut out = "invalid YAML frontmatter: ".to_owned();
                push_str(&mut out, detail.as_str());
                out
            },
            MarkdownError::NonStringKey => "frontmatter keys must be strings".to_owned(),
            MarkdownError::UnsupportedValue => "unsupported YAML value".to_owned(),
        }
    }
}

/// A note written back: its frontmatter, already written as YAML, in a
/// `---` fenced block before the body.
pub fn frame_document(yaml: &str, body: &str) -> (result: String)
    ensures
        result@ == "---\n"@ + yaml@ + "---\n"@ + body@,
{
    let mut out = "---\n".to_owned();
    push_str(&mut out, yaml);
    push_str(&mut out, "---\n");
    push_str(&mut out, body);
    out
}

} // verus!
