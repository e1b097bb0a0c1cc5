//! Fenced `steel` blocks in Markdown: finding them, bounding what goes in and
//! comes out of their evaluation, and putting the evaluated Markdown back in
//! their place.

use vstd::prelude::*;

use crate::text::{
    chars_of, is_white_space, is_whitespace, push_char, push_str, string_range, trim_end_spec,
};

verus! {

/// The largest block source, in bytes, that is evaluated.
pub const MAX_BLOCK_BYTES: usize = 65536;

/// The largest Markdown, in bytes, that a block may produce.
pub const MAX_RESULT_BYTES: usize = 262144;

/// A piece of a Markdown body: text kept as it is, the source of a closed
/// `steel` block, or the rest of the body after a block that is never closed.
#[derive(Clone, Debug, PartialEq, Eq)]
pub enum SteelSegment {
    Text(String),
    Block(String),
    Unclosed(String),
}

/// The abstract value of a segment.
pub enum SegmentView {
    Text(Seq<char>),
    Block(Seq<char>),
    Unclosed(Seq<char>),
}

impl SteelSegment {
    pub open spec fn view(self) -> SegmentView {
        match self {
            SteelSegment::Text(t) => SegmentView::Text(t@),
            SteelSegment::Block(t) => SegmentView::Block(t@),
            SteelSegment::Unclosed(t) => SegmentView::Unclosed(t@),
        }
    }
}

/// The abstract values of a sequence of segments.
pub open spec fn segment_views(segments: Seq<SteelSegment>) -> Seq<SegmentView> {
    segments.map_values(|x: SteelSegment| x.view())
}

/// Just past the end of the line that starts at `p`: after its `\n`, or at
/// the end of `s`.
pub open spec fn line_end(s: Seq<char>, p: int) -> int
    decreases s.len() - p,
{
    if p < 0 || p >= s.len() {
        s.len() as int
    } else if s[p] == '\n' {
        p + 1
    } else {
        line_end(s, p + 1)
    }
}

/// A line ends after it starts, and within `s`.
pub proof fn lemma_line_end_bounds(s: Seq<char>, p: int)
    requires
        0 <= p < s.len(),
    ensures
        p < line_end(s, p) <= s.len(),
        forall|i: int| p <= i < line_end(s, p) - 1 ==> s[i] != '\n',
        s[line_end(s, p) - 1] == '\n' || line_end(s, p) == s.len(),
    decreases s.len() - p,
{
    if s[p] != '\n' {
        assert(line_end(s, p) == line_end(s, p + 1));
        if p + 1 < s.len() {
            lemma_line_end_bounds(s, p + 1);
        } else {
            assert(line_end(s, p + 1) == s.len());
        }
    }
}

/// The line that opens a block: ```` ```steel ```` with nothing after it but
/// white space.
pub open spec fn opens_block(line: Seq<char>) -> bool {
    trim_end_spec(line) == seq!['`', '`', '`', 's', 't', 'e', 'e', 'l']
}

/// The line that closes a block: ```` ``` ```` with nothing after it but white
/// space.
pub open spec fn closes_block(line: Seq<char>) -> bool {
    trim_end_spec(line) == seq!['`', '`', '`']
}

/// The start of the first line at or after the line start `q` that closes a
/// block.
pub open spec fn closing_line(s: Seq<char>, q: int) -> Option<int>
    decreases s.len() - q,
{
    if q < 0 || q >= s.len() {
        None
    } else if closes_block(s.subrange(q, line_end(s, q))) {
        Some(q)
    } else {
        proof {
            lemma_line_end_bounds(s, q);
        }
        closing_line(s, line_end(s, q))
    }
}

/// A closing line lies at or after where the search starts.
pub proof fn lemma_closing_line_bounds(s: Seq<char>, q: int)
    ensures
        closing_line(s, q) matches Some(c) ==> 0 <= q <= c < s.len(),
    decreases s.len() - q,
{
    if 0 <= q < s.len() && !closes_block(s.subrange(q, line_end(s, q))) {
        lemma_line_end_bounds(s, q);
        lemma_closing_line_bounds(s, line_end(s, q));
    }
}

/// The segments of `s` from the line start `p` on.
pub open spec fn segments_from(s: Seq<char>, p: int) -> Seq<SegmentView>
    decreases s.len() - p,
{
    if p < 0 || p >= s.len() {
        Seq::empty()
    } else {
        let e = line_end(s, p);
        proof {
            lemma_line_end_bounds(s, p);
        }
        if !opens_block(s.subrange(p, e)) {
            seq![SegmentView::Text(s.subrange(p, e))] + segments_from(s, e)
        } else {
            match closing_line(s, e) {
                Some(c) => {
                    proof {
                        lemma_closing_line_bounds(s, e);
                        lemma_line_end_bounds(s, c);
                    }
                    seq![SegmentView::Block(s.subrange(e, c))] + segments_from(s, line_end(s, c))
                },
                None => seq![SegmentView::Unclosed(s.subrange(e, s.len() as int))],
            }
        }
    }
}

/// The segments of a Markdown body, line by line.
pub open spec fn segments_spec(body: Seq<char>) -> Seq<SegmentView> {
    segments_from(body, 0)
}

/// Just past the end of the line of `chars` that starts at `p`.
fn find_line_end(chars: &[char], p: usize) -> (result: usize)
    requires
        p < chars@.len(),
    ensures
        result == line_end(chars@, p as int),
{
    let mut i: usize = p;
    while i < chars.len() && chars[i] != '\n'
        invariant
            p <= i <= chars@.len(),
            line_end(chars@, i as int) == line_end(chars@, p as int),
        decreases chars@.len() - i,
    {
        i = i + 1;
    }
    if i < chars.len() {
        i + 1
    } else {
        i
    }
}

/// Whether characters `from..to` of `chars`, without trailing white space,
/// spell `word`.
fn trimmed_is(chars: &[char], from: usize, to: usize, word: &str) -> (result: bool)
    requires
        from <= to <= chars@.len(),
    ensures
        result == (trim_end_spec(chars@.subrange(from as int, to as int)) == word@),
{
    let mut end: usize = to;
    while end > from && is_whitespace(chars[end - 1])
        invariant
            from <= end <= to <= chars@.len(),
            trim_end_spec(chars@.subrange(from as int, end as int)) == trim_end_spec(
                chars@.subrange(from as int, to as int),
            ),
        decreases end,
    {
        proof {
            assert(chars@.subrange(from as int, end as int).drop_last() =~= chars@.subrange(
                from as int,
                end - 1,
            ));
        }
        end = end - 1;
    }
    proof {
        let t = chars@.subrange(from as int, end as int);
        assert(!(t.len() > 0 && is_white_space(t.last())));
        assert(trim_end_spec(t) == t);
    }
    assert(trim_end_spec(chars@.subrange(from as int, to as int)) == chars@.subrange(from as int, end as int));
    let w = chars_of(word);
    if end - from != w.len() {
        return false;
    }
    let mut i: usize = 0;
    while i < w.len()
        invariant
            from <= end <= chars@.len(),
            end - from == w@.len(),
            w@ == word@,
            trim_end_spec(chars@.subrange(from as int, to as int)) == chars@.subrange(from as int, end as int),
            i <= w@.len(),
            forall|j: int| 0 <= j < i ==> chars@[from + j] == w@[j],
        decreases w@.len() - i,
    {
        if chars[from + i] != w[i] {
            assert(chars@.subrange(from as int, end as int)[i as int] != word@[i as int]);
            return false;
        }
        i = i + 1;
    }
    assert(chars@.subrange(from as int, end as int) =~= word@);
    true
}

/// The start of the first closing line at or after the line start `q`.
fn find_closing_line(chars: &[char], q: usize) -> (result: Option<usize>)
    requires
        q <= chars@.len(),
    ensures
        result matches Some(c) ==> closing_line(chars@, q as int) == Some(c as int),
        result is None ==> closing_line(chars@, q as int) is None,
{
    proof {
        reveal_strlit("```");
    }
    let mut i: usize = q;
    while i < chars.len()
        invariant
            q <= i <= chars@.len(),
            closing_line(chars@, i as int) == closing_line(chars@, q as int),
            "```"@ == seq!['`', '`', '`'],
        decreases chars@.len() - i,
    {
        let e = find_line_end(chars, i);
        proof {
            lemma_line_end_bounds(chars@, i as int);
        }
        if trimmed_is(chars, i, e, "```") {
            return Some(i);
        }
        i = e;
    }
    None
}

/// Split a Markdown body into text and `steel` blocks. A line that, without
/// trailing white space, is ```` ```steel ```` opens a block; the block's
/// source runs up to the next line that is ```` ``` ````, which closes it.
/// A block that is never closed takes the rest of the body.
pub fn steel_segments(body: &str) -> (result: Vec<SteelSegment>)
    ensures
        segment_views(result@) == segments_spec(body@),
{
    proof {
        reveal_strlit("```steel");
    }
    let chars = chars_of(body);
    let n = chars.len();
    let mut out: Vec<SteelSegment> = Vec::new();
    let mut p: usize = 0;
    while p < n
        invariant
            n == chars@.len(),
            chars@ == body@,
            p <= n,
            segment_views(out@) + segments_from(chars@, p as int) == segments_spec(body@),
            "```steel"@ == seq!['`', '`', '`', 's', 't', 'e', 'e', 'l'],
        decreases n - p,
    {
        let ghost before = segment_views(out@);
        let ghost rest = segments_from(chars@, p as int);
        let e = find_line_end(chars.as_slice(), p);
        proof {
            lemma_line_end_bounds(chars@, p as int);
        }
        if !trimmed_is(chars.as_slice(), p, e, "```steel") {
            let line = string_range(chars.as_slice(), p, e);
            out.push(SteelSegment::Text(line));
            proof {
                assert(segment_views(out@) =~= before.push(SegmentView::Text(chars@.subrange(p as int, e as int))));
                assert(before.push(SegmentView::Text(chars@.subrange(p as int, e as int)))
                    + segments_from(chars@, e as int) =~= before + rest);
            }
            p = e;
        } else {
            match find_closing_line(chars.as_slice(), e) {
                Some(c) => {
                    proof {
                        lemma_closing_line_bounds(chars@, e as int);
                        lemma_line_end_bounds(chars@, c as int);
                    }
                    let source = string_range(chars.as_slice(), e, c);
                    out.push(SteelSegment::Block(source));
                    let next = find_line_end(chars.as_slice(), c);
                    proof {
                        assert(segment_views(out@) =~= before.push(SegmentView::Block(chars@.subrange(e as int, c as int))));
                        assert(before.push(SegmentView::Block(chars@.subrange(e as int, c as int)))
                            + segments_from(chars@, next as int) =~= before + rest);
                    }
                    p = next;
                },
                None => {
                    let source = string_range(chars.as_slice(), e, n);
                    out.push(SteelSegment::Unclosed(source));
                    proof {
                        assert(segment_views(out@) =~= before.push(SegmentView::Unclosed(chars@.subrange(e as int, n as int))));
                        assert(segment_views(out@) + segments_from(chars@, n as int) =~= before + rest);
                    }
                    p = n;
                },
            }
        }
    }
    proof {
        assert(segment_views(out@) =~= segment_views(out@) + segments_from(chars@, p as int));
    }
    out
}

/// The Markdown that stands in a block's place: what its evaluation
/// returned, or a quoted line with the error.
pub open spec fn outcome_text(outcome: Result<Seq<char>, Seq<char>>) -> Seq<char> {
    match outcome {
        Ok(markdown) => markdown,
        Err(error) => "> Steel block error: "@ + error + "\n"@,
    }
}

/// The abstract values of evaluation outcomes.
pub open spec fn outcome_views(outcomes: Seq<Result<String, String>>) -> Seq<Result<Seq<char>, Seq<char>>> {
    outcomes.map_values(
        |o: Result<String, String>|
            match o {
                Ok(m) => Ok(m@),
                Err(e) => Err(e@),
            },
    )
}

/// How many closed blocks there are among `segments`.
pub open spec fn block_count(segments: Seq<SegmentView>) -> nat
    decreases segments.len(),
{
    if segments.len() == 0 {
        0
    } else {
        (if segments[0] is Block {
            1nat
        } else {
            0nat
        }) + block_count(segments.drop_first())
    }
}

/// The body with each closed block replaced by the outcome of its
/// evaluation, in order, and an unclosed block's opening line written as
/// ```` ```steel ```` and a line break.
pub open spec fn rendered(
    segments: Seq<SegmentView>,
    outcomes: Seq<Result<Seq<char>, Seq<char>>>,
) -> Seq<char>
    decreases segments.len(),
{
    if segments.len() == 0 {
        Seq::empty()
    } else {
        match segments[0] {
            SegmentView::Text(t) => t + rendered(segments.drop_first(), outcomes),
            SegmentView::Block(_) => outcome_text(outcomes[0]) + rendered(
                segments.drop_first(),
                outcomes.drop_first(),
            ),
            SegmentView::Unclosed(source) => "```steel\n"@ + source + rendered(
                segments.drop_first(),
                outcomes,
            ),
        }
    }
}

/// Put the outcomes of evaluating the closed blocks of `body`, in order,
/// in their place.
pub fn render_steel_blocks(body: &str, outcomes: &[Result<String, String>]) -> (result: String)
    requires
        outcomes@.len() == block_count(segments_spec(body@)),
    ensures
        result@ == rendered(segments_spec(body@), outcome_views(outcomes@)),
{
    let segments = steel_segments(body);
    proof {
        reveal_strlit("```steel\n");
        reveal_strlit("> Steel block error: ");
        reveal_strlit("\n");
    }
    let ghost views = segment_views(segments@);
    let ghost results = outcome_views(outcomes@);
    let mut out = String::new();
    let mut i: usize = 0;
    let mut k: usize = 0;
    proof {
        assert(views.skip(0) =~= views);
        assert(results.skip(0) =~= results);
        assert(out@ + rendered(views, results) =~= rendered(views, results));
    }
    while i < segments.len()
        invariant
            views == segment_views(segments@),
            views == segments_spec(body@),
            results == outcome_views(outcomes@),
            i <= segments@.len(),
            k <= outcomes@.len(),
            block_count(views.skip(i as int)) == outcomes@.len() - k,
            out@ + rendered(views.skip(i as int), results.skip(k as int)) == rendered(views, results),
        decreases segments@.len() - i,
    {
        let ghost rest = views.skip(i as int);
        let ghost pending = results.skip(k as int);
        proof {
            assert(rest.drop_first() =~= views.skip(i + 1));
            assert(rest[0] == segments@[i as int].view());
        }
        match &segments[i] {
            SteelSegment::Text(t) => {
                push_str(&mut out, t.as_str());
                proof {
                    assert(out@ + rendered(views.skip(i + 1), pending) =~= rendered(views, results));
                }
            },
            SteelSegment::Block(_) => {
                proof {
                    assert(pending.drop_first() =~= results.skip(k + 1));
                    assert(pending[0] == results[k as int]);
                }
                match &outcomes[k] {
                    Ok(markdown) => {
                        push_str(&mut out, markdown.as_str());
                    },
                    Err(error) => {
                        push_str(&mut out, "> Steel block error: ");
                        push_str(&mut out, error.as_str());
                        push_str(&mut out, "\n");
                    },
                }
                proof {
                    assert(out@ + rendered(views.skip(i + 1), results.skip(k + 1)) =~= rendered(views, results));
                }
                k = k + 1;
            },
            SteelSegment::Unclosed(source) => {
                push_str(&mut out, "```steel\n");
                push_str(&mut out, source.as_str());
                proof {
                    assert(out@ + rendered(views.skip(i + 1), pending) =~= rendered(views, results));
                }
            },
        }
        i = i + 1;
    }
    proof {
        assert(views.skip(i as int).len() == 0);
    }
    assert(out@ =~= rendered(views, results));
    out
}

/// Refuse to evaluate a block source larger than `MAX_BLOCK_BYTES`.
pub fn check_block_source(source: &str) -> (result: Result<(), String>)
    ensures
        vstd::utf8::encode_utf8(source@).len() <= MAX_BLOCK_BYTES ==> result is Ok,
        vstd::utf8::encode_utf8(source@).len() > MAX_BLOCK_BYTES ==> (result matches Err(e) && e@
            == "block exceeds the 64 KiB limit"@),
{
    if source.as_bytes().len() > MAX_BLOCK_BYTES {
        Err("block exceeds the 64 KiB limit".to_owned())
    } else {
        Ok(())
    }
}

/// Refuse Markdown from a block that is larger than `MAX_RESULT_BYTES`.
pub fn check_block_result(output: String) -> (result: Result<String, String>)
    ensures
        vstd::utf8::encode_utf8(output@).len() <= MAX_RESULT_BYTES ==> result == Ok::<String, String>(output),
        vstd::utf8::encode_utf8(output@).len() > MAX_RESULT_BYTES ==> (result matches Err(e) && e@
            == "block result exceeds the 256 KiB limit"@),
{
    if output.as_str().as_bytes().len() > MAX_RESULT_BYTES {
        Err("block result exceeds the 256 KiB limit".to_owned())
    } else {
        Ok(output)
    }
}

} // verus!
