use xo::operator::{
    authorized, decode_form_component, html_escape, parse_form, route, FormError, Method,
    OperatorRoute,
};

#[test]
fn setup_form_decodes_fields_and_escapes_html() {
    let form = parse_form(b"workspace_id=abc%2F123&ticket=hello+world").expect("valid form");
    assert_eq!(form.get("workspace_id").map(String::as_str), Some("abc/123"));
    assert_eq!(form.get("ticket").map(String::as_str), Some("hello world"));
    assert_eq!(
        html_escape("<ticket value=\"secret\">"),
        "&lt;ticket value=&quot;secret&quot;&gt;"
    );
}

#[test]
fn form_decoding_reports_each_error() {
    assert_eq!(decode_form_component("%4"), Err(FormError::IncompleteEscape));
    assert_eq!(decode_form_component("%zz"), Err(FormError::InvalidEscape));
    assert_eq!(decode_form_component("%ff"), Err(FormError::InvalidUtf8));
    assert_eq!(decode_form_component("%C3%A9+x").unwrap(), "é x");
    assert_eq!(parse_form(&[0xff]).err(), Some(FormError::NotUtf8));
    let form = parse_form(b"a=1&&a=2&flag").unwrap();
    assert_eq!(form.get("a").map(String::as_str), Some("2"));
    assert_eq!(form.get("flag").map(String::as_str), Some(""));
    assert_eq!(html_escape("it's & done"), "it&#39;s &amp; done");
}

#[test]
fn operator_routes_require_a_bearer_token() {
    assert!(authorized(Some("Bearer secret-token"), b"secret-token"));
    assert!(!authorized(Some("Bearer wrong"), b"secret-token"));
    assert!(!authorized(Some("secret-token"), b"secret-token"));
    assert!(!authorized(None, b"secret-token"));
    assert_eq!(route(Method::Get, "/healthz", false), OperatorRoute::Health);
    assert_eq!(route(Method::Get, "/setup", false), OperatorRoute::SetupPage);
    assert_eq!(route(Method::Get, "/v1/status", false), OperatorRoute::Unauthorized);
    assert_eq!(route(Method::Get, "/v1/status", true), OperatorRoute::Status);
    assert_eq!(route(Method::Get, "/metrics", true), OperatorRoute::Metrics);
    assert_eq!(route(Method::Post, "/v1/status", true), OperatorRoute::NotFound);
}
