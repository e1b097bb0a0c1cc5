//! Which embedded browser-client file answers a request, and with which
//! headers: exact files first, the single-page shell for extension-less
//! routes, and long-lived caching only for content-addressed assets.

use vstd::prelude::*;

use crate::paths::{find_last, last_index, lemma_last_index};
use crate::text::{
    chars_eq, chars_of, eq_str, first_position, is_prefix, lemma_first_position, starts_with_str,
    string_range,
};

verus! {

/// A file of the browser client built into the server.
#[derive(Clone, Debug, PartialEq, Eq)]
pub struct EmbeddedAsset {
    pub path: String,
    pub bytes: Vec<u8>,
}

/// What the body of a response is.
#[derive(Clone, Copy, Debug, PartialEq, Eq)]
pub enum PwaBody {
    /// The bytes of the embedded asset at this index.
    Asset(usize),
    /// The text `Not found\n`.
    NotFound,
    /// No bytes, as for a `HEAD` request.
    Empty,
}

/// Status, headers and body of a response to a browser-client request.
#[derive(Clone, Debug, PartialEq, Eq)]
pub struct PwaResponse {
    pub status: u16,
    pub content_type: String,
    pub cache_control: String,
    pub body: PwaBody,
}

/// The request path with one leading `/` removed.
pub open spec fn without_leading_slash(path: Seq<char>) -> Seq<char> {
    if path.len() > 0 && path[0] == '/' {
        path.drop_first()
    } else {
        path
    }
}

/// The asset name looked up for a requested path: the empty path is the shell.
pub open spec fn lookup_name(path: Seq<char>) -> Seq<char> {
    if path.len() == 0 {
        "index.html"@
    } else {
        path
    }
}

/// Whether the last `/`-separated segment of `path` holds a `.`.
pub open spec fn has_extension(path: Seq<char>) -> bool {
    last_index(path.skip(last_index(path, '/') + 1), '.') >= 0
}

/// The asset that answers a requested path, if any.
pub open spec fn chosen_asset(paths: Seq<Seq<char>>, path: Seq<char>) -> Option<int> {
    let requested = without_leading_slash(path);
    match first_position(paths, lookup_name(requested)) {
        Some(i) => Some(i),
        None => if has_extension(requested) {
            None
        } else {
            first_position(paths, "index.html"@)
        },
    }
}

/// The paths of the embedded assets.
pub open spec fn asset_paths(assets: Seq<EmbeddedAsset>) -> Seq<Seq<char>> {
    assets.map_values(|a: EmbeddedAsset| a.path@)
}

/// The media type served for a file, chosen by what follows its last `.`.
pub open spec fn content_type_spec(path: Seq<char>) -> Seq<char> {
    let ext = path.skip(last_index(path, '.') + 1);
    if ext == "css"@ {
        "text/css; charset=utf-8"@
    } else if ext == "html"@ {
        "text/html; charset=utf-8"@
    } else if ext == "js"@ {
        "text/javascript; charset=utf-8"@
    } else if ext == "json"@ {
        "application/json"@
    } else if ext == "png"@ {
        "image/png"@
    } else if ext == "svg"@ {
        "image/svg+xml"@
    } else if ext == "wasm"@ {
        "application/wasm"@
    } else if ext == "webmanifest"@ {
        "application/manifest+json"@
    } else {
        "application/octet-stream"@
    }
}

/// Fingerprinted build assets are immutable; everything else is revalidated.
pub open spec fn cache_control_spec(path: Seq<char>) -> Seq<char> {
    if is_prefix("assets/"@, path) {
        "public, max-age=31536000, immutable"@
    } else {
        "no-cache"@
    }
}

/// Whether `response` is the answer to a request for `path`.
pub open spec fn serves(assets: Seq<EmbeddedAsset>, path: Seq<char>, response: PwaResponse) -> bool {
    match chosen_asset(asset_paths(assets), path) {
        Some(i) => {
            &&& response.status == 200
            &&& response.body == PwaBody::Asset(i as usize)
            &&& response.content_type@ == content_type_spec(assets[i].path@)
            &&& response.cache_control@ == cache_control_spec(assets[i].path@)
        },
        None => {
            &&& response.status == 404
            &&& response.body == PwaBody::NotFound
            &&& response.content_type@ == "text/plain; charset=utf-8"@
            &&& response.cache_control@ == "no-store"@
        },
    }
}

/// The index of the first asset whose path is `name`.
fn find_asset(assets: &Vec<EmbeddedAsset>, name: &[char]) -> (result: Option<usize>)
    ensures
        match result {
            Some(k) => first_position(asset_paths(assets@), name@) == Some(k as int) && k
                < assets@.len(),
            None => first_position(asset_paths(assets@), name@) is None,
        },
{
    let ghost paths = asset_paths(assets@);
    let mut i: usize = 0;
    while i < assets.len()
        invariant
            i <= assets@.len(),
            paths == asset_paths(assets@),
            forall|j: int| 0 <= j < i ==> paths[j] != name@,
        decreases assets@.len() - i,
    {
        let path = chars_of(assets[i].path.as_str());
        if chars_eq(path.as_slice(), name) {
            proof {
                lemma_first_position(paths, name@, i as int);
            }
            return Some(i);
        }
        i = i + 1;
    }
    proof {
        lemma_first_position(paths, name@, i as int);
    }
    None
}

/// Whether the last segment of `chars` holds a `.`.
fn segment_has_dot(chars: &Vec<char>) -> (result: bool)
    ensures
        result == has_extension(chars@),
{
    let start = match find_last(chars, chars.len(), '/') {
        Some(k) => k + 1,
        None => 0,
    };
    proof {
        assert(chars@.take(chars@.len() as int) =~= chars@);
        lemma_last_index(chars@, '/');
    }
    let ghost name = chars@.skip(start as int);
    proof {
        lemma_last_index(name, '.');
    }
    let mut i = start;
    while i < chars.len()
        invariant
            start <= i <= chars@.len(),
            name == chars@.skip(start as int),
            has_extension(chars@) == (last_index(name, '.') >= 0),
            forall|j: int| start <= j < i ==> chars@[j] != '.',
        decreases chars@.len() - i,
    {
        if chars[i] == '.' {
            assert(name[i - start] == '.');
            proof {
                lemma_last_index(name, '.');
            }
            return true;
        }
        i = i + 1;
    }
    proof {
        if last_index(name, '.') >= 0 {
            assert(chars@[start + last_index(name, '.')] == name[last_index(name, '.')]);
        }
    }
    false
}

/// The media type for an asset path.
pub fn content_type(path: &str) -> (result: String)
    ensures
        result@ == content_type_spec(path@),
{
    let chars = chars_of(path);
    let start = match find_last(&chars, chars.len(), '.') {
        Some(k) => k + 1,
        None => 0,
    };
    proof {
        assert(chars@.take(chars@.len() as int) =~= chars@);
        lemma_last_index(chars@, '.');
    }
    let ext_text = string_range(chars.as_slice(), start, chars.len());
    let ext = chars_of(ext_text.as_str());
    assert(ext@ =~= path@.skip(last_index(path@, '.') + 1));
    if eq_str(ext.as_slice(), "css") {
        "text/css; charset=utf-8".to_owned()
    } else if eq_str(ext.as_slice(), "html") {
        "text/html; charset=utf-8".to_owned()
    } else if eq_str(ext.as_slice(), "js") {
        "text/javascript; charset=utf-8".to_owned()
    } else if eq_str(ext.as_slice(), "json") {
        "application/json".to_owned()
    } else if eq_str(ext.as_slice(), "png") {
        "image/png".to_owned()
    } else if eq_str(ext.as_slice(), "svg") {
        "image/svg+xml".to_owned()
    } else if eq_str(ext.as_slice(), "wasm") {
        "application/wasm".to_owned()
    } else if eq_str(ext.as_slice(), "webmanifest") {
        "application/manifest+json".to_owned()
    } else {
        "application/octet-stream".to_owned()
    }
}

/// The caching rule for an asset path.
pub fn cache_control(path: &str) -> (result: String)
    ensures
        result@ == cache_control_spec(path@),
{
    let chars = chars_of(path);
    if starts_with_str(chars.as_slice(), "assets/") {
        "public, max-age=31536000, immutable".to_owned()
    } else {
        "no-cache".to_owned()
    }
}

/// Answer a `GET` for `path` from the embedded assets.
pub fn serve(assets: &Vec<EmbeddedAsset>, path: &str) -> (result: PwaResponse)
    ensures
        serves(assets@, path@, result),
{
    let chars = chars_of(path);
    let requested: Vec<char> = if chars.len() > 0 && chars[0] == '/' {
        let text = string_range(chars.as_slice(), 1, chars.len());
        chars_of(text.as_str())
    } else {
        chars
    };
    assert(requested@ =~= without_leading_slash(path@));
    let index = chars_of("index.html");
    let name = if requested.len() == 0 {
        chars_of("index.html")
    } else {
        chars_of(string_of_chars(&requested).as_str())
    };
    assert(name@ == lookup_name(requested@));
    let ghost paths = asset_paths(assets@);
    assert(index@ == "index.html"@);
    let found = match find_asset(assets, name.as_slice()) {
        Some(i) => Some(i),
        None => if segment_has_dot(&requested) {
            None
        } else {
            find_asset(assets, index.as_slice())
        },
    };
    assert(match found {
        Some(k) => chosen_asset(paths, path@) == Some(k as int) && k < assets@.len(),
        None => chosen_asset(paths, path@) is None,
    });
    match found {
        Some(i) => {
            let asset_path = assets[i].path.as_str();
            let response = PwaResponse {
                status: 200,
                content_type: content_type(asset_path),
                cache_control: cache_control(asset_path),
                body: PwaBody::Asset(i),
            };
            response
        },
        None => {
            let response = PwaResponse {
                status: 404,
                content_type: "text/plain; charset=utf-8".to_owned(),
                cache_control: "no-store".to_owned(),
                body: PwaBody::NotFound,
            };
            response
        },
    }
}

/// Answer a `HEAD` for `path`: the headers of `serve`, with no body.
pub fn serve_head(assets: &Vec<EmbeddedAsset>, path: &str) -> (result: PwaResponse)
    ensures
        exists|full: PwaResponse|
            #![trigger serves(assets@, path@, full)]
            serves(assets@, path@, full) && result.status == full.status
                && result.content_type@ == full.content_type@ && result.cache_control@
                == full.cache_control@,
        result.body == PwaBody::Empty,
{
    let full = serve(assets, path);
    assert(serves(assets@, path@, full));
    PwaResponse {
        status: full.status,
        content_type: full.content_type,
        cache_control: full.cache_control,
        body: PwaBody::Empty,
    }
}

/// An owned copy of a character vector.
fn string_of_chars(chars: &Vec<char>) -> (result: String)
    ensures
        result@ == chars@,
{
    let result = string_range(chars.as_slice(), 0, chars.len());
    assert(chars@.subrange(0, chars@.len() as int) =~= chars@);
    result
}

} // verus!
