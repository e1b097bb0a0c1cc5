use xo::domain::{FrontmatterValue, NoteId};
use xo::http_api::{
    is_json_content_type, item_id, item_permission, markdown_fence, request_token, route,
    valid_webhook_source, webhook_note, Method, Route,
};
use xo::markdown::canonical_note_path;

#[test]
fn requests_reach_their_handlers() {
    assert_eq!(route(Method::Get, "/healthz"), Route::Health);
    assert_eq!(route(Method::Post, "/healthz"), Route::HealthMethodNotAllowed);
    assert_eq!(route(Method::Head, "/healthz"), Route::HealthMethodNotAllowed);
    assert_eq!(
        route(Method::Get, "/.well-known/xo-configuration"),
        Route::AuthConfiguration
    );
    assert_eq!(route(Method::Post, "/api/webhook/github"), Route::Webhook);
    assert_eq!(route(Method::Get, "/api/webhook/github"), Route::ApiNotFound);
    assert_eq!(route(Method::Get, "/api/sync"), Route::Sync);
    assert_eq!(route(Method::Post, "/api/items"), Route::CreateItem);
    assert_eq!(route(Method::Get, "/api/items"), Route::ApiNotFound);
    assert_eq!(route(Method::Get, "/api/items/abcdefg"), Route::Item);
    assert_eq!(route(Method::Delete, "/api/items/abcdefg"), Route::Item);
    assert_eq!(route(Method::Get, "/api"), Route::ApiNotFound);
    assert_eq!(route(Method::Get, "/api/unknown"), Route::ApiNotFound);
    assert_eq!(route(Method::Get, "/apiary"), Route::PwaGet);
    assert_eq!(route(Method::Get, "/"), Route::PwaGet);
    assert_eq!(route(Method::Head, "/index.html"), Route::PwaHead);
    assert_eq!(route(Method::Post, "/index.html"), Route::MethodNotAllowed);
}

#[test]
fn item_reads_need_read_and_changes_need_write() {
    assert_eq!(item_permission(Method::Get), "xo:read");
    assert_eq!(item_permission(Method::Patch), "xo:write");
    assert_eq!(item_permission(Method::Delete), "xo:write");
}

#[test]
fn item_paths_name_valid_note_identifiers() {
    assert_eq!(item_id("/api/items/abcdefg"), Some("abcdefg".to_owned()));
    assert_eq!(item_id("/api/items/"), None);
    assert_eq!(item_id("/api/items/abc/efg"), None);
    assert_eq!(item_id("/api/items/ABCDEFG"), None);
    assert_eq!(item_id("/api/items/abcdefgh"), None);
    assert_eq!(item_id("/api/other/abcdefg"), None);
}

#[test]
fn webhook_sources_are_short_and_plain() {
    assert!(valid_webhook_source("github"));
    assert!(valid_webhook_source("my.source_1-2"));
    assert!(valid_webhook_source(&"a".repeat(64)));
    assert!(!valid_webhook_source(&"a".repeat(65)));
    assert!(!valid_webhook_source(""));
    assert!(!valid_webhook_source("a b"));
    assert!(!valid_webhook_source("a/b"));
    assert!(!valid_webhook_source("é"));
}

#[test]
fn bearer_tokens_come_from_the_header_or_the_websocket_protocol() {
    assert_eq!(request_token(Some("Bearer abc"), None), Some("abc".to_owned()));
    assert_eq!(
        request_token(Some("Bearer abc"), Some("xo-bearer.other")),
        Some("abc".to_owned())
    );
    assert_eq!(
        request_token(Some("Basic xyz"), Some("chat, xo-bearer.tok ")),
        Some("tok".to_owned())
    );
    assert_eq!(
        request_token(None, Some("xo-bearer.first,xo-bearer.second")),
        Some("first".to_owned())
    );
    assert_eq!(request_token(Some("bearer abc"), None), None);
    assert_eq!(request_token(None, Some("chat")), None);
    assert_eq!(request_token(None, None), None);
}

#[test]
fn json_bodies_must_say_so() {
    assert!(is_json_content_type(Some("application/json")));
    assert!(is_json_content_type(Some("Application/JSON; charset=utf-8")));
    assert!(is_json_content_type(Some(" application/json ;x")));
    assert!(!is_json_content_type(Some("text/plain")));
    assert!(!is_json_content_type(Some("application/jsonx")));
    assert!(!is_json_content_type(None));
}

#[test]
fn fences_outgrow_the_backquotes_they_enclose() {
    assert_eq!(markdown_fence("yaml", "a: 1\n"), "```yaml\na: 1\n```\n");
    assert_eq!(
        markdown_fence("", "plain webhook body"),
        "```\nplain webhook body\n```\n"
    );
    assert_eq!(markdown_fence("", "x````y"), "`````\nx````y\n`````\n");
    assert_eq!(markdown_fence("", ""), "```\n\n```\n");
    assert_eq!(markdown_fence("js", "``"), "```js\n``\n```\n");
}

#[test]
fn webhook_deliveries_become_notes() {
    let note = webhook_note(
        NoteId::new("abcdefg"),
        "2026-01-02T03:04:05+00:00".to_owned(),
        "github",
        "x-event: push\n",
        "yaml",
        "event: created\ncount: 2\n",
    );
    assert_eq!(note.id, NoteId::new("abcdefg"));
    assert_eq!(
        note.frontmatter,
        vec![
            (
                "created".to_owned(),
                FrontmatterValue::String("2026-01-02T03:04:05+00:00".to_owned())
            ),
            ("id".to_owned(), FrontmatterValue::String("abcdefg".to_owned())),
            ("source".to_owned(), FrontmatterValue::String("github".to_owned())),
            (
                "tags".to_owned(),
                FrontmatterValue::Sequence(vec![FrontmatterValue::String(
                    "source:github".to_owned()
                )])
            ),
            (
                "title".to_owned(),
                FrontmatterValue::String("Webhook: github".to_owned())
            ),
            ("type".to_owned(), FrontmatterValue::String("webhook".to_owned())),
        ]
    );
    assert_eq!(
        note.body,
        "```yaml\nx-event: push\n```\n\n```yaml\nevent: created\ncount: 2\n```\n"
    );
    assert!(note.body.contains("x-event: push"));
    assert_eq!(
        note.path,
        canonical_note_path(&NoteId::new("abcdefg"), Some("Webhook: github"))
    );
    assert_eq!(note.path, "abc/abcdefg-webhook-github.md");
}
