//! The decisions of the sync server's HTTP surface: which handler a request
//! reaches, where its bearer token comes from, which webhook sources and
//! item identifiers are accepted, and how a webhook delivery is written down
//! as Markdown.

use vstd::prelude::*;

use crate::auth::{READ_PERMISSION, WRITE_PERMISSION};
use crate::domain::{
    entries_view, lemma_entries_view_index, lemma_values_view_index, values_view, FrontmatterValue,
    FrontmatterView, Note, NoteId,
};
use crate::markdown::{canonical_note_path, canonical_path_spec};
use crate::id::{is_valid, valid_id_spec};
use crate::text::{
    chars_of, eq_ignore_ascii_case, eq_ignore_ascii_case_spec, eq_str, is_ascii_alnum, is_prefix,
    push_char, push_str, split_char, split_spec, starts_with_str, string_range, string_views,
    trim, trim_spec,
};

verus! {

/// The request methods the server tells apart.
#[derive(Clone, Copy, Debug, PartialEq, Eq, Structural)]
pub enum Method {
    Get,
    Head,
    Post,
    Patch,
    Delete,
    Other,
}

/// The handler a request reaches.
#[derive(Clone, Copy, Debug, PartialEq, Eq, Structural)]
pub enum Route {
    Health,
    AuthConfiguration,
    Webhook,
    Sync,
    CreateItem,
    Item,
    ApiNotFound,
    HealthMethodNotAllowed,
    PwaGet,
    PwaHead,
    MethodNotAllowed,
}

/// The handler for `method` on `path`, tried in order: the health check,
/// the browser configuration, webhooks, the sync socket, item creation,
/// single items, any other path below `/api`, a wrong method on the health
/// check, and then the embedded web application.
pub open spec fn route_spec(method: Method, path: Seq<char>) -> Route {
    if method == Method::Get && path == "/healthz"@ {
        Route::Health
    } else if method == Method::Get && path == "/.well-known/xo-configuration"@ {
        Route::AuthConfiguration
    } else if method == Method::Post && is_prefix("/api/webhook/"@, path) {
        Route::Webhook
    } else if method == Method::Get && path == "/api/sync"@ {
        Route::Sync
    } else if method == Method::Post && path == "/api/items"@ {
        Route::CreateItem
    } else if is_prefix("/api/items/"@, path) {
        Route::Item
    } else if path == "/api"@ || is_prefix("/api/"@, path) {
        Route::ApiNotFound
    } else if path == "/healthz"@ {
        Route::HealthMethodNotAllowed
    } else if method == Method::Get {
        Route::PwaGet
    } else if method == Method::Head {
        Route::PwaHead
    } else {
        Route::MethodNotAllowed
    }
}

/// The handler a request reaches.
pub fn route(method: Method, path: &str) -> (result: Route)
    ensures
        result == route_spec(method, path@),
{
    let chars = chars_of(path);
    let p = chars.as_slice();
    if method == Method::Get && eq_str(p, "/healthz") {
        Route::Health
    } else if method == Method::Get && eq_str(p, "/.well-known/xo-configuration") {
        Route::AuthConfiguration
    } else if method == Method::Post && starts_with_str(p, "/api/webhook/") {
        Route::Webhook
    } else if method == Method::Get && eq_str(p, "/api/sync") {
        Route::Sync
    } else if method == Method::Post && eq_str(p, "/api/items") {
        Route::CreateItem
    } else if starts_with_str(p, "/api/items/") {
        Route::Item
    } else if eq_str(p, "/api") || starts_with_str(p, "/api/") {
        Route::ApiNotFound
    } else if eq_str(p, "/healthz") {
        Route::HealthMethodNotAllowed
    } else if method == Method::Get {
        Route::PwaGet
    } else if method == Method::Head {
        Route::PwaHead
    } else {
        Route::MethodNotAllowed
    }
}

/// The permission a request on a single item needs: reading for `GET`,
/// writing for anything else.
pub fn item_permission(method: Method) -> (result: &'static str)
    ensures
        method == Method::Get ==> result@ == READ_PERMISSION@,
        method != Method::Get ==> result@ == WRITE_PERMISSION@,
{
    if method == Method::Get {
        READ_PERMISSION
    } else {
        WRITE_PERMISSION
    }
}

/// The item identifier of a path below `/api/items/`, if it is a valid note
/// identifier.
pub open spec fn item_id_spec(path: Seq<char>) -> Option<Seq<char>> {
    let id = path.skip(11);
    if is_prefix("/api/items/"@, path) && id.len() > 0 && !id.contains('/') && valid_id_spec(
        vstd::utf8::encode_utf8(id),
    ) {
        Some(id)
    } else {
        None
    }
}

/// The identifier named by an item path; `None` is answered with
/// "invalid item id".
pub fn item_id(path: &str) -> (result: Option<String>)
    ensures
        result matches Some(id) ==> item_id_spec(path@) == Some(id@),
        result is None ==> item_id_spec(path@) is None,
{
    proof {
        reveal_strlit("/api/items/");
    }
    let chars = chars_of(path);
    if !starts_with_str(chars.as_slice(), "/api/items/") {
        return None;
    }
    let id = string_range(chars.as_slice(), 11, chars.len());
    assert(id@ =~= path@.skip(11));
    let id_chars = chars_of(id.as_str());
    let mut i: usize = 0;
    while i < id_chars.len()
        invariant
            i <= id_chars@.len(),
            id_chars@ == id@,
            id@ == path@.skip(11),
            forall|j: int| 0 <= j < i ==> id_chars@[j] != '/',
        decreases id_chars@.len() - i,
    {
        if id_chars[i] == '/' {
            assert(id@.contains('/')) by {
                assert(id@[i as int] == '/');
            }
            return None;
        }
        i = i + 1;
    }
    assert(!id@.contains('/'));
    if id_chars.len() == 0 || !is_valid(id.as_str()) {
        return None;
    }
    Some(id)
}

/// Characters a webhook source may hold: ASCII letters and digits, `.`, `_`
/// and `-`.
pub open spec fn is_source_char(c: char) -> bool {
    is_ascii_alnum(c) || c == '.' || c == '_' || c == '-'
}

/// Whether a webhook source is one to 64 of the characters it may hold.
pub open spec fn valid_source_spec(source: Seq<char>) -> bool {
    1 <= source.len() <= 64 && forall|i: int| 0 <= i < source.len() ==> is_source_char(#[trigger] source[i])
}

/// Whether a webhook source is accepted; a refused one is answered with
/// "invalid webhook source".
pub fn valid_webhook_source(source: &str) -> (result: bool)
    ensures
        result == valid_source_spec(source@),
{
    let chars = chars_of(source);
    if chars.len() == 0 || chars.len() > 64 {
        return false;
    }
    let mut i: usize = 0;
    while i < chars.len()
        invariant
            i <= chars@.len(),
            chars@ == source@,
            forall|j: int| 0 <= j < i ==> is_source_char(#[trigger] chars@[j]),
        decreases chars@.len() - i,
    {
        let c = chars[i];
        if !(crate::text::ascii_alnum(c) || c == '.' || c == '_' || c == '-') {
            return false;
        }
        i = i + 1;
    }
    true
}

/// The token a client offers: after `Bearer ` in its authorization header,
/// or else in the first offered WebSocket protocol, white space trimmed,
/// that starts with `xo-bearer.`.
pub open spec fn token_spec(authorization: Option<Seq<char>>, protocols: Option<Seq<char>>) -> Option<Seq<char>> {
    match authorization {
        Some(a) if is_prefix("Bearer "@, a) => Some(a.skip(7)),
        _ => match protocols {
            Some(p) => protocol_token(split_spec(p, ',')),
            None => None,
        },
    }
}

/// The token in the first of `protocols`, trimmed, that starts with
/// `xo-bearer.`.
pub open spec fn protocol_token(protocols: Seq<Seq<char>>) -> Option<Seq<char>>
    decreases protocols.len(),
{
    if protocols.len() == 0 {
        None
    } else if is_prefix("xo-bearer."@, trim_spec(protocols[0])) {
        Some(trim_spec(protocols[0]).skip(10))
    } else {
        protocol_token(protocols.drop_first())
    }
}

/// The characters of a header value that may be absent.
pub open spec fn opt_view(value: Option<&str>) -> Option<Seq<char>> {
    match value {
        Some(v) => Some(v@),
        None => None,
    }
}

/// The bearer token of a request, from the values of its `authorization`
/// and `sec-websocket-protocol` headers.
pub fn request_token(authorization: Option<&str>, protocols: Option<&str>) -> (result: Option<String>)
    ensures
        result matches Some(t) ==> token_spec(opt_view(authorization), opt_view(protocols)) == Some(t@),
        result is None ==> token_spec(opt_view(authorization), opt_view(protocols)) is None,
{
    proof {
        reveal_strlit("Bearer ");
        reveal_strlit("xo-bearer.");
    }
    if let Some(a) = authorization {
        let chars = chars_of(a);
        if starts_with_str(chars.as_slice(), "Bearer ") {
            let token = string_range(chars.as_slice(), 7, chars.len());
            assert(token@ =~= a@.skip(7));
            return Some(token);
        }
    }
    match protocols {
        None => None,
        Some(p) => {
            let items = split_char(p, ',');
            let ghost views = string_views(items@);
            proof {
                assert(views.skip(0) =~= views);
                assert(token_spec(opt_view(authorization), opt_view(protocols)) == protocol_token(views));
            }
            let mut i: usize = 0;
            while i < items.len()
                invariant
                    i <= items@.len(),
                    views == string_views(items@),
                    views == split_spec(p@, ','),
                    protocol_token(views.skip(i as int)) == protocol_token(views),
                    token_spec(opt_view(authorization), opt_view(protocols)) == protocol_token(views),
                    "xo-bearer."@ == seq!['x', 'o', '-', 'b', 'e', 'a', 'r', 'e', 'r', '.'],
                decreases items@.len() - i,
            {
                proof {
                    assert(views.skip(i as int).drop_first() =~= views.skip(i + 1));
                    assert(views.skip(i as int)[0] == items@[i as int]@);
                }
                let trimmed = trim(items[i].as_str());
                let chars = chars_of(trimmed.as_str());
                if starts_with_str(chars.as_slice(), "xo-bearer.") {
                    let token = string_range(chars.as_slice(), 10, chars.len());
                    assert(token@ =~= trim_spec(items@[i as int]@).skip(10));
                    return Some(token);
                }
                i = i + 1;
            }
            proof {
                assert(views.skip(i as int).len() == 0);
            }
            None
        },
    }
}

/// Whether a `content-type` value, up to its first `;` and trimmed, is
/// `application/json` in any ASCII case.
pub open spec fn json_content_type_spec(value: Option<Seq<char>>) -> bool {
    match value {
        Some(v) => eq_ignore_ascii_case_spec(trim_spec(split_spec(v, ';')[0]), "application/json"@),
        None => false,
    }
}

/// Whether a request body is declared as JSON; one that is not is answered
/// with "content-type must be application/json".
pub fn is_json_content_type(value: Option<&str>) -> (result: bool)
    ensures
        result == json_content_type_spec(opt_view(value)),
{
    match value {
        None => false,
        Some(v) => {
            let parts = split_char(v, ';');
            proof {
                assert(split_spec(v@, ';').len() >= 1);
                assert(string_views(parts@)[0] == parts@[0]@);
            }
            let first = trim(parts[0].as_str());
            let chars = chars_of(first.as_str());
            eq_ignore_ascii_case(chars.as_slice(), "application/json")
        },
    }
}

/// How many backquotes end `s`.
pub open spec fn trailing_ticks(s: Seq<char>) -> nat
    decreases s.len(),
{
    if s.len() > 0 && s.last() == '`' {
        1 + trailing_ticks(s.drop_last())
    } else {
        0
    }
}

/// The length of the longest run of backquotes in `s`.
pub open spec fn longest_ticks(s: Seq<char>) -> nat
    decreases s.len(),
{
    if s.len() == 0 {
        0
    } else {
        let rest = longest_ticks(s.drop_last());
        let here = trailing_ticks(s);
        if rest >= here {
            rest
        } else {
            here
        }
    }
}

/// A run of backquotes ends no earlier than where `s` starts.
proof fn lemma_ticks_bounded(s: Seq<char>)
    ensures
        trailing_ticks(s) <= s.len(),
        longest_ticks(s) <= s.len(),
    decreases s.len(),
{
    if s.len() > 0 {
        lemma_ticks_bounded(s.drop_last());
    }
}

/// The fence that encloses `content`: backquotes, one more than its longest
/// run of them (counting up to `usize::MAX` at most) and at least three.
pub open spec fn fence_spec(content: Seq<char>) -> Seq<char> {
    let above: int = if longest_ticks(content) < usize::MAX {
        longest_ticks(content) + 1int
    } else {
        usize::MAX as int
    };
    let n = if above >= 3 {
        above
    } else {
        3
    };
    Seq::new(n as nat, |i: int| '`')
}

/// `content` as a fenced code block in `language`: the fence, the language
/// and a line break, the content, a line break unless it ends with one, and
/// the fence and a line break.
pub open spec fn markdown_fence_spec(language: Seq<char>, content: Seq<char>) -> Seq<char> {
    let fence = fence_spec(content);
    let separator = if content.len() > 0 && content.last() == '\n' {
        Seq::empty()
    } else {
        seq!['\n']
    };
    fence + language + seq!['\n'] + content + separator + fence + seq!['\n']
}

/// Enclose `content` in a fenced code block that no run of backquotes in it
/// can close.
pub fn markdown_fence(language: &str, content: &str) -> (result: String)
    ensures
        result@ == markdown_fence_spec(language@, content@),
{
    let chars = chars_of(content);
    let mut run: usize = 0;
    let mut longest: usize = 0;
    let mut i: usize = 0;
    while i < chars.len()
        invariant
            i <= chars@.len(),
            run == trailing_ticks(chars@.take(i as int)),
            longest == longest_ticks(chars@.take(i as int)),
            run <= i,
            longest <= i,
        decreases chars@.len() - i,
    {
        proof {
            assert(chars@.take(i + 1).drop_last() =~= chars@.take(i as int));
            assert(chars@.take(i + 1).last() == chars@[i as int]);
        }
        if chars[i] == '`' {
            run = run + 1;
        } else {
            run = 0;
        }
        if run > longest {
            longest = run;
        }
        i = i + 1;
    }
    proof {
        assert(chars@.take(i as int) =~= content@);
    }
    let count = if longest.saturating_add(1) >= 3 {
        longest.saturating_add(1)
    } else {
        3
    };
    let mut fence = String::new();
    let mut k: usize = 0;
    while k < count
        invariant
            k <= count,
            fence@ == Seq::new(k as nat, |j: int| '`'),
        decreases count - k,
    {
        push_char(&mut fence, '`');
        k = k + 1;
        assert(fence@ =~= Seq::new(k as nat, |j: int| '`'));
    }
    assert(longest == longest_ticks(content@));
    assert(fence@ =~= fence_spec(content@));
    let mut out = String::new();
    push_str(&mut out, fence.as_str());
    push_str(&mut out, language);
    push_char(&mut out, '\n');
    push_str(&mut out, content);
    if !(chars.len() > 0 && chars[chars.len() - 1] == '\n') {
        push_char(&mut out, '\n');
    }
    push_str(&mut out, fence.as_str());
    push_char(&mut out, '\n');
    assert(out@ =~= markdown_fence_spec(language@, content@));
    out
}

/// The frontmatter of the note that records a webhook delivery, in key
/// order.
pub open spec fn webhook_frontmatter_spec(id: Seq<char>, created: Seq<char>, source: Seq<char>) -> Seq<(Seq<char>, FrontmatterView)> {
    seq![
        ("created"@, FrontmatterView::Text(created)),
        ("id"@, FrontmatterView::Text(id)),
        ("source"@, FrontmatterView::Text(source)),
        ("tags"@, FrontmatterView::Sequence(seq![FrontmatterView::Text("source:"@ + source)])),
        ("title"@, FrontmatterView::Text("Webhook: "@ + source)),
        ("type"@, FrontmatterView::Text("webhook"@)),
    ]
}

/// The note that records a webhook delivery from `source`, created at
/// `created` under identifier `id`: its headers, as YAML, and its payload,
/// each in a fenced block, at the canonical path for its title.
pub fn webhook_note(
    id: NoteId,
    created: String,
    source: &str,
    headers_yaml: &str,
    payload_language: &str,
    payload: &str,
) -> (note: Note)
    ensures
        note.id == id,
        entries_view(note.frontmatter@) == webhook_frontmatter_spec(id.0@, created@, source@),
        note.body@ == markdown_fence_spec("yaml"@, headers_yaml@) + "\n"@ + markdown_fence_spec(
            payload_language@,
            payload@,
        ),
        note.path@ == canonical_path_spec(id.0@, Some("Webhook: "@ + source@)),
{
    proof {
        reveal_strlit("created");
        reveal_strlit("id");
        reveal_strlit("source");
        reveal_strlit("tags");
        reveal_strlit("title");
        reveal_strlit("type");
        reveal_strlit("source:");
        reveal_strlit("Webhook: ");
        reveal_strlit("webhook");
        reveal_strlit("yaml");
        reveal_strlit("\n");
    }
    let mut tag = String::new();
    push_str(&mut tag, "source:");
    push_str(&mut tag, source);
    let mut title = String::new();
    push_str(&mut title, "Webhook: ");
    push_str(&mut title, source);
    let mut tags: Vec<FrontmatterValue> = Vec::new();
    tags.push(FrontmatterValue::String(tag));
    proof {
        lemma_values_view_index(tags@);
        assert(values_view(tags@) =~= seq![FrontmatterView::Text("source:"@ + source@)]);
    }
    let ghost tags_view = values_view(tags@);
    let ghost title_view = title@;
    let ghost created_view = created@;
    let path = canonical_note_path(&id, Some(title.as_str()));
    let mut frontmatter: Vec<(String, FrontmatterValue)> = Vec::new();
    frontmatter.push(("created".to_owned(), FrontmatterValue::String(created)));
    frontmatter.push(("id".to_owned(), FrontmatterValue::String(id.0.clone())));
    frontmatter.push(("source".to_owned(), FrontmatterValue::String(source.to_owned())));
    frontmatter.push(("tags".to_owned(), FrontmatterValue::Sequence(tags)));
    frontmatter.push(("title".to_owned(), FrontmatterValue::String(title)));
    frontmatter.push(("type".to_owned(), FrontmatterValue::String("webhook".to_owned())));
    proof {
        lemma_entries_view_index(frontmatter@);
        let v = entries_view(frontmatter@);
        assert(v[0] == (frontmatter@[0].0@, frontmatter@[0].1.view()));
        assert(v[1] == (frontmatter@[1].0@, frontmatter@[1].1.view()));
        assert(v[2] == (frontmatter@[2].0@, frontmatter@[2].1.view()));
        assert(v[3] == (frontmatter@[3].0@, frontmatter@[3].1.view()));
        assert(v[4] == (frontmatter@[4].0@, frontmatter@[4].1.view()));
        assert(v[5] == (frontmatter@[5].0@, frontmatter@[5].1.view()));
        assert(frontmatter@[3].1.view() == FrontmatterView::Sequence(tags_view));
        assert(frontmatter@[4].1.view() == FrontmatterView::Text(title_view));
        assert(frontmatter@[0].1.view() == FrontmatterView::Text(created_view));
        assert(v =~= webhook_frontmatter_spec(id.0@, created_view, source@));
    }
    let mut body = markdown_fence("yaml", headers_yaml);
    push_str(&mut body, "\n");
    let payload_fence = markdown_fence(payload_language, payload);
    push_str(&mut body, payload_fence.as_str());
    Note { id, frontmatter, body, path }
}

} // verus!
