//! `[[id]]` links between notes, with the byte ranges and line positions
//! that editors report.

use vstd::prelude::*;

use crate::text::{chars_of, len_utf8, lemma_utf8_len_encoded, lemma_utf8_len_prefix, lemma_utf8_len_push, string_range, utf8_len};

verus! {

/// A link found in a text. Offsets and columns count UTF-8 bytes; lines
/// count from zero.
#[derive(Clone, Debug, PartialEq, Eq)]
pub struct Wikilink {
    pub id: String,
    pub start: usize,
    pub end: usize,
    pub line: usize,
    pub start_column: usize,
    pub end_column: usize,
}

/// The first `]` at or after `j`, or the end of `s`.
pub open spec fn close_from(s: Seq<char>, j: int) -> int
    decreases s.len() - j,
{
    if j < 0 || j >= s.len() {
        s.len() as int
    } else if s[j] == ']' {
        j
    } else {
        close_from(s, j + 1)
    }
}

/// Where the search for the first `]` can end.
pub proof fn lemma_close_from_bounds(s: Seq<char>, j: int)
    requires
        0 <= j,
    ensures
        j <= close_from(s, j) || (j >= s.len() && close_from(s, j) == s.len()),
        close_from(s, j) <= s.len(),
        close_from(s, j) < s.len() ==> s[close_from(s, j)] == ']',
    decreases s.len() - j,
{
    if j < s.len() && s[j] != ']' {
        lemma_close_from_bounds(s, j + 1);
    }
}

/// Whether a link starts at position `i`: `[[`, a run without `]`, then `]]`.
pub open spec fn link_at(s: Seq<char>, i: int) -> bool {
    &&& 0 <= i
    &&& i + 1 < s.len()
    &&& s[i] == '['
    &&& s[i + 1] == '['
    &&& close_from(s, i + 2) + 1 < s.len()
    &&& s[close_from(s, i + 2) + 1] == ']'
}

/// The links of `s` from position `i` on, leftmost first and without
/// overlap: each as the position of its `[[` and of its first `]`.
pub open spec fn links_from(s: Seq<char>, i: int) -> Seq<(int, int)>
    decreases s.len() - i,
{
    if i < 0 || i >= s.len() {
        Seq::empty()
    } else if link_at(s, i) {
        let c = close_from(s, i + 2);
        proof {
            lemma_close_from_bounds(s, i + 2);
        }
        seq![(i, c)] + links_from(s, c + 2)
    } else {
        links_from(s, i + 1)
    }
}

/// The number of line breaks in `s`.
pub open spec fn newlines(s: Seq<char>) -> nat
    decreases s.len(),
{
    if s.len() == 0 {
        0
    } else {
        newlines(s.drop_last()) + if s.last() == '\n' {
            1nat
        } else {
            0nat
        }
    }
}

/// Where the line holding the end of `s` begins, as a character position.
pub open spec fn line_start(s: Seq<char>) -> nat
    decreases s.len(),
{
    if s.len() == 0 {
        0
    } else if s.last() == '\n' {
        s.len()
    } else {
        line_start(s.drop_last())
    }
}

proof fn lemma_line_start_bound(s: Seq<char>)
    ensures
        line_start(s) <= s.len(),
    decreases s.len(),
{
    if s.len() > 0 && s.last() != '\n' {
        lemma_line_start_bound(s.drop_last());
    }
}

/// The byte column of position `i` within its line.
pub open spec fn column(s: Seq<char>, i: int) -> int {
    utf8_len(s.take(i)) - utf8_len(s.take(i).take(line_start(s.take(i)) as int))
}

/// The link at `[[` position `i` with first `]` at `c`, as its fields:
/// id, start, end, line, start column and end column.
pub open spec fn link_fields(s: Seq<char>, i: int, c: int) -> (Seq<char>, int, int, int, int, int) {
    (
        s.subrange(i + 2, c),
        utf8_len(s.take(i)) as int,
        utf8_len(s.take(c + 2)) as int,
        newlines(s.take(i)) as int,
        column(s, i),
        column(s, c + 2),
    )
}

/// The fields of a parsed link.
pub open spec fn wikilink_fields(link: Wikilink) -> (Seq<char>, int, int, int, int, int) {
    (
        link.id@,
        link.start as int,
        link.end as int,
        link.line as int,
        link.start_column as int,
        link.end_column as int,
    )
}

/// Byte offsets, line numbers and line-start offsets of every position of
/// `s`, the end included.
fn positions(text: &str, s: &Vec<char>) -> (result: (Vec<usize>, Vec<usize>, Vec<usize>))
    requires
        s@ == text@,
    ensures
        result.0@.len() == s@.len() + 1,
        result.1@.len() == s@.len() + 1,
        result.2@.len() == s@.len() + 1,
        forall|k: int| 0 <= k <= s@.len() ==> #[trigger] result.0@[k] == utf8_len(s@.take(k)),
        forall|k: int| 0 <= k <= s@.len() ==> #[trigger] result.1@[k] == newlines(s@.take(k)),
        forall|k: int| 0 <= k <= s@.len() ==> #[trigger] result.2@[k] == utf8_len(
            s@.take(k).take(line_start(s@.take(k)) as int),
        ),
        forall|k: int| 0 <= k <= s@.len() ==> result.2@[k] <= #[trigger] result.0@[k],
{
    let total = text.as_bytes().len();
    proof {
        lemma_utf8_len_encoded(text@);
    }
    let mut bytes: Vec<usize> = Vec::new();
    let mut lines: Vec<usize> = Vec::new();
    let mut starts: Vec<usize> = Vec::new();
    let mut cur_byte: usize = 0;
    let mut cur_line: usize = 0;
    let mut cur_start: usize = 0;
    let mut k: usize = 0;
    proof {
        assert(s@.take(0) =~= Seq::<char>::empty());
        assert(s@.take(0).take(0) =~= Seq::<char>::empty());
    }
    while k < s.len()
        invariant
            total == utf8_len(s@),
            k <= s@.len(),
            bytes@.len() == k,
            lines@.len() == k,
            starts@.len() == k,
            cur_byte == utf8_len(s@.take(k as int)),
            cur_line == newlines(s@.take(k as int)),
            cur_line <= k,
            cur_start == utf8_len(s@.take(k as int).take(line_start(s@.take(k as int)) as int)),
            cur_start <= cur_byte,
            forall|q: int| 0 <= q < k ==> #[trigger] bytes@[q] == utf8_len(s@.take(q)),
            forall|q: int| 0 <= q < k ==> #[trigger] lines@[q] == newlines(s@.take(q)),
            forall|q: int| 0 <= q < k ==> #[trigger] starts@[q] == utf8_len(
                s@.take(q).take(line_start(s@.take(q)) as int),
            ),
            forall|q: int| 0 <= q < k ==> starts@[q] <= #[trigger] bytes@[q],
        decreases s@.len() - k,
    {
        bytes.push(cur_byte);
        lines.push(cur_line);
        starts.push(cur_start);
        let c = s[k];
        let ghost t = s@.take(k as int);
        let ghost t1 = s@.take(k + 1);
        proof {
            assert(t1 =~= t.push(c));
            assert(t1.drop_last() =~= t);
            lemma_utf8_len_push(t, c);
            lemma_utf8_len_prefix(s@, k + 1);
            lemma_line_start_bound(t);
        }
        cur_byte = cur_byte + len_utf8(c);
        if c == '\n' {
            cur_line = cur_line + 1;
            cur_start = cur_byte;
            proof {
                assert(t1.take(t1.len() as int) =~= t1);
            }
        } else {
            proof {
                assert(t1.take(line_start(t) as int) =~= t.take(line_start(t) as int));
            }
        }
        k = k + 1;
    }
    bytes.push(cur_byte);
    lines.push(cur_line);
    starts.push(cur_start);
    (bytes, lines, starts)
}

/// Find the `[[id]]` links of a text, leftmost first and without overlap.
pub fn parse(text: &str) -> (result: Vec<Wikilink>)
    ensures
        result@.len() == links_from(text@, 0).len(),
        forall|k: int|
            0 <= k < result@.len() ==> wikilink_fields(#[trigger] result@[k]) == link_fields(
                text@,
                links_from(text@, 0)[k].0,
                links_from(text@, 0)[k].1,
            ),
{
    let s = chars_of(text);
    let (bytes, lines, starts) = positions(text, &s);
    let ghost found = links_from(s@, 0);
    let n = s.len();
    let m = bytes.len();
    assert(n < m);
    let mut result: Vec<Wikilink> = Vec::new();
    let mut i: usize = 0;
    while i < n
        invariant
            s@ == text@,
            n == s@.len(),
            n < usize::MAX,
            found == links_from(s@, 0),
            bytes@.len() == n + 1,
            lines@.len() == n + 1,
            starts@.len() == n + 1,
            forall|k: int| 0 <= k <= n ==> #[trigger] bytes@[k] == utf8_len(s@.take(k)),
            forall|k: int| 0 <= k <= n ==> #[trigger] lines@[k] == newlines(s@.take(k)),
            forall|k: int| 0 <= k <= n ==> #[trigger] starts@[k] == utf8_len(
                s@.take(k).take(line_start(s@.take(k)) as int),
            ),
            forall|k: int| 0 <= k <= n ==> starts@[k] <= #[trigger] bytes@[k],
            i <= n + 1,
            result@.len() + links_from(s@, i as int).len() == found.len(),
            forall|k: int| 0 <= k < result@.len() ==> found[k] == #[trigger] found[k],
            forall|k: int| 0 <= k < links_from(s@, i as int).len() ==> found[result@.len() + k]
                == #[trigger] links_from(s@, i as int)[k],
            forall|k: int|
                0 <= k < result@.len() ==> wikilink_fields(#[trigger] result@[k]) == link_fields(
                    s@,
                    found[k].0,
                    found[k].1,
                ),
        decreases n + 1 - i,
    {
        let mut advanced = false;
        if s[i] == '[' && i + 1 < n && s[i + 1] == '[' {
            let mut j: usize = i + 2;
            proof {
                lemma_close_from_bounds(s@, i + 2);
            }
            while j < n && s[j] != ']'
                invariant
                    i + 2 <= j <= n,
                    n == s@.len(),
                    n < usize::MAX,
                    close_from(s@, i + 2) == close_from(s@, j as int),
                decreases n - j,
            {
                j = j + 1;
            }
            if j + 1 < n && s[j + 1] == ']' {
                proof {
                    assert(close_from(s@, j as int) == j);
                    assert(link_at(s@, i as int));
                    assert(links_from(s@, i as int) == seq![(i as int, j as int)] + links_from(s@, j + 2));
                }
                let id = string_range(s.as_slice(), i + 2, j);
                let link = Wikilink {
                    id,
                    start: bytes[i],
                    end: bytes[j + 2],
                    line: lines[i],
                    start_column: bytes[i] - starts[i],
                    end_column: bytes[j + 2] - starts[j + 2],
                };
                let ghost before = result@;
                result.push(link);
                proof {
                    assert(links_from(s@, i as int)[0] == (i as int, j as int));
                    assert(found[before.len() + 0int] == links_from(s@, i as int)[0]);
                    assert forall|k: int| 0 <= k < links_from(s@, j + 2).len() implies found[result@.len() + k]
                        == #[trigger] links_from(s@, j + 2)[k] by {
                        assert(links_from(s@, i as int)[k + 1] == links_from(s@, j + 2)[k]);
                    }
                    assert forall|k: int| 0 <= k < result@.len() implies wikilink_fields(#[trigger] result@[k]) == link_fields(
                        s@,
                        found[k].0,
                        found[k].1,
                    ) by {
                        if k < before.len() {
                            assert(result@[k] == before[k]);
                        }
                    }
                }
                i = j + 2;
                advanced = true;
            } else {
                proof {
                    if j < n {
                        assert(close_from(s@, j as int) == j);
                    }
                    assert(!link_at(s@, i as int));
                }
            }
        } else {
            proof {
                assert(!link_at(s@, i as int));
            }
        }
        if !advanced {
            proof {
                assert(links_from(s@, i as int) == links_from(s@, i + 1));
            }
            i = i + 1;
        }
    }
    proof {
        assert(links_from(s@, i as int).len() == 0);
    }
    result
}

} // verus!
