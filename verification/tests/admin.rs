use xo::admin::{asset_identity, asset_mime, import_refusal, is_legacy_module, legacy_refusal};
use xo::projection::Diagnostic;
use xo::AssetId;

#[test]
fn asset_types_follow_the_extension_in_any_case() {
    assert_eq!(asset_mime("assets/images/cover.png"), "image/png");
    assert_eq!(asset_mime("assets/a.JPG"), "image/jpeg");
    assert_eq!(asset_mime("assets/a.jpeg"), "image/jpeg");
    assert_eq!(asset_mime("assets/a.gif"), "image/gif");
    assert_eq!(asset_mime("assets/a.webp"), "image/webp");
    assert_eq!(asset_mime("assets/a.Svg"), "image/svg+xml");
    assert_eq!(asset_mime("assets/a.pdf"), "application/pdf");
    assert_eq!(asset_mime("assets/a.txt"), "text/plain");
    assert_eq!(asset_mime("assets/a.md"), "text/plain");
    assert_eq!(asset_mime("assets/a.json"), "application/json");
    assert_eq!(asset_mime("assets/a.bin"), "application/octet-stream");
    assert_eq!(asset_mime("assets/.png"), "application/octet-stream");
    assert_eq!(asset_mime("assets/noextension"), "application/octet-stream");
}

#[test]
fn assets_are_identified_by_path_and_contents() {
    let mut identity = b"assets/a.png".to_vec();
    identity.push(0);
    identity.extend_from_slice(b"legacy asset");
    assert_eq!(
        asset_identity("assets/a.png", b"legacy asset"),
        AssetId(blake3::hash(&identity).to_hex().to_string())
    );
    assert_ne!(
        asset_identity("assets/a.png", b"legacy asset"),
        asset_identity("assets/b.png", b"legacy asset")
    );
}

#[test]
fn legacy_modules_are_fennel_and_lua_files() {
    assert!(is_legacy_module("exo.fnl"));
    assert!(is_legacy_module("lib/helpers.lua"));
    assert!(!is_legacy_module("xo.scm"));
    assert!(!is_legacy_module(".fnl"));
    assert!(!is_legacy_module("notes/a.md"));
}

fn diagnostic(n: usize) -> Diagnostic {
    Diagnostic {
        path: format!("notes/{n}.md"),
        code: "invalid-frontmatter".to_owned(),
        message: "bad".to_owned(),
    }
}

#[test]
fn refused_imports_list_at_most_ten_diagnostics() {
    let one = import_refusal(&[diagnostic(1)]);
    assert_eq!(
        one,
        "source workspace has 1 diagnostic(s); import aborted\nnotes/1.md [invalid-frontmatter]: bad"
    );
    let many: Vec<Diagnostic> = (0..12).map(diagnostic).collect();
    let text = import_refusal(&many);
    assert!(text.starts_with("source workspace has 12 diagnostic(s); import aborted\n"));
    assert_eq!(text.lines().count(), 11);
    assert!(text.contains("notes/9.md"));
    assert!(!text.contains("notes/10.md"));
}

#[test]
fn legacy_modules_stop_an_import_by_name() {
    assert_eq!(
        legacy_refusal(&["lib/a.lua".to_owned(), "b.fnl".to_owned()]),
        "unsupported legacy Fennel/Lua modules: lib/a.lua, b.fnl; migrate them explicitly to declarative modules/**/*.scm files"
    );
}
