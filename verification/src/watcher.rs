//! Which filesystem changes below a Markdown projection matter, and the order
//! in which they are applied: notes and Steel configuration only, never the
//! `assets` tree or hidden paths, writes before removals.
//!
//! Paths are handled as their lists of components, as `Path::components`
//! yields them.

use vstd::prelude::*;

use crate::paths::{extension, extension_spec};
use crate::text::{chars_of, eq_str, is_prefix, push_str, starts_with_str};

verus! {

/// A settled change of one projected file.
#[derive(Clone, Debug, PartialEq, Eq)]
pub enum ProjectionEvent {
    /// The file exists and should be read again.
    Upsert(String),
    /// The file is gone.
    Remove(String),
}

impl ProjectionEvent {
    /// The path that changed.
    pub fn path(&self) -> (result: &String)
        ensures
            result == match self {
                ProjectionEvent::Upsert(p) => p,
                ProjectionEvent::Remove(p) => p,
            },
    {
        match self {
            ProjectionEvent::Upsert(path) => path,
            ProjectionEvent::Remove(path) => path,
        }
    }
}

/// The components joined by `/`.
pub open spec fn join_spec(parts: Seq<Seq<char>>) -> Seq<char>
    decreases parts.len(),
{
    if parts.len() == 0 {
        Seq::empty()
    } else if parts.len() == 1 {
        parts[0]
    } else {
        join_spec(parts.drop_last()) + seq!['/'] + parts.last()
    }
}

/// The character views of a list of components.
pub open spec fn component_views(parts: Seq<String>) -> Seq<Seq<char>> {
    parts.map_values(|p: String| p@)
}

/// Whether `root` is a leading run of the components of `path`.
pub open spec fn under_root(root: Seq<Seq<char>>, path: Seq<Seq<char>>) -> bool {
    root.len() <= path.len() && path.take(root.len() as int) == root
}

/// Whether a path, relative to the projection root, is a note (`.md`), the
/// main configuration `xo.scm`, or a `.scm` file below `modules/` or `plugins/`.
pub open spec fn content_path(full: Seq<Seq<char>>, relative: Seq<char>) -> bool {
    ||| (full.len() > 0 && extension_spec(full.last()) == Some("md"@))
    ||| relative == "xo.scm"@
    ||| ((is_prefix("modules/"@, relative) || is_prefix("plugins/"@, relative))
        && extension_spec(relative) == Some("scm"@))
}

/// Whether some component is hidden: it starts with `.`.
pub open spec fn has_hidden(parts: Seq<Seq<char>>) -> bool {
    exists|i: int| 0 <= i < parts.len() && (#[trigger] parts[i]).len() > 0 && parts[i][0] == '.'
}

/// Whether a change of `path` concerns the projection below `root`.
pub open spec fn projection_path_spec(root: Seq<Seq<char>>, path: Seq<Seq<char>>) -> bool {
    let relative = path.skip(root.len() as int);
    &&& under_root(root, path)
    &&& content_path(path, join_spec(relative))
    &&& !(relative.len() > 0 && relative[0] == "assets"@)
    &&& !has_hidden(relative)
}

/// Join components with `/`.
pub fn join_components(parts: &Vec<String>, from: usize) -> (result: String)
    requires
        from <= parts@.len(),
    ensures
        result@ == join_spec(component_views(parts@).skip(from as int)),
{
    let ghost views = component_views(parts@);
    let mut result = String::new();
    let mut i = from;
    proof {
        assert(views.skip(from as int).take(0) =~= Seq::<Seq<char>>::empty());
    }
    while i < parts.len()
        invariant
            from <= i <= parts@.len(),
            views == component_views(parts@),
            result@ == join_spec(views.skip(from as int).take(i - from)),
        decreases parts@.len() - i,
    {
        let ghost prefix = views.skip(from as int).take(i - from);
        let ghost next = views.skip(from as int).take(i - from + 1);
        proof {
            assert(next.drop_last() =~= prefix);
            assert(next.last() == parts@[i as int]@);
        }
        if i > from {
            push_str(&mut result, "/");
            proof {
                reveal_strlit("/");
            }
        } else {
            proof {
                assert(prefix.len() == 0);
                assert(next =~= seq![parts@[i as int]@]);
            }
        }
        push_str(&mut result, parts[i].as_str());
        i = i + 1;
    }
    proof {
        assert(views.skip(from as int).take(i - from) =~= views.skip(from as int));
    }
    result
}

/// Whether a component is hidden.
fn hidden(part: &String) -> (result: bool)
    ensures
        result == (part@.len() > 0 && part@[0] == '.'),
{
    let chars = chars_of(part.as_str());
    chars.len() > 0 && chars[0] == '.'
}

/// Whether the extension of `path` is exactly `wanted`.
fn extension_is(path: &str, wanted: &str) -> (result: bool)
    ensures
        result == (extension_spec(path@) == Some(wanted@)),
{
    match extension(path) {
        Some(ext) => {
            let chars = chars_of(ext.as_str());
            eq_str(chars.as_slice(), wanted)
        },
        None => false,
    }
}

/// Whether a change of the path with components `path` concerns the
/// projection whose root has components `root`.
pub fn is_projection_path(root: &Vec<String>, path: &Vec<String>) -> (result: bool)
    ensures
        result == projection_path_spec(component_views(root@), component_views(path@)),
{
    let ghost r = component_views(root@);
    let ghost p = component_views(path@);
    if root.len() > path.len() {
        return false;
    }
    let mut i: usize = 0;
    while i < root.len()
        invariant
            i <= root@.len() <= path@.len(),
            r == component_views(root@),
            p == component_views(path@),
            forall|j: int| 0 <= j < i ==> root@[j]@ == path@[j]@,
        decreases root@.len() - i,
    {
        let a = chars_of(root[i].as_str());
        if !eq_str(a.as_slice(), path[i].as_str()) {
            assert(p.take(r.len() as int)[i as int] != r[i as int]);
            return false;
        }
        i = i + 1;
    }
    assert(p.take(r.len() as int) =~= r);
    let relative = join_components(path, root.len());
    let ghost rel = p.skip(r.len() as int);
    let full_md = path.len() > 0 && extension_is(path[path.len() - 1].as_str(), "md");
    let rel_chars = chars_of(relative.as_str());
    let main_config = eq_str(rel_chars.as_slice(), "xo.scm");
    let module_config = (starts_with_str(rel_chars.as_slice(), "modules/") || starts_with_str(
        rel_chars.as_slice(),
        "plugins/",
    )) && extension_is(relative.as_str(), "scm");
    if !(full_md || main_config || module_config) {
        return false;
    }
    let n = root.len();
    if n < path.len() {
        let first = chars_of(path[n].as_str());
        if eq_str(first.as_slice(), "assets") {
            assert(rel[0] == path@[n as int]@);
            return false;
        }
    }
    let mut k = n;
    while k < path.len()
        invariant
            n == r.len(),
            n <= k <= path@.len(),
            r == component_views(root@),
            p == component_views(path@),
            rel == p.skip(n as int),
            forall|j: int| 0 <= j < k - n ==> !((#[trigger] rel[j]).len() > 0 && rel[j][0] == '.'),
        decreases path@.len() - k,
    {
        if hidden(&path[k]) {
            assert(rel[k - n] == path@[k as int]@);
            return false;
        }
        assert(rel[k - n] == path@[k as int]@);
        k = k + 1;
    }
    true
}

/// The events that the changes of the `candidates`, in that order, amount to,
/// where `exists[i]` tells whether the `i`th candidate is now a file: writes
/// first, then removals, each in candidate order.
pub open spec fn events_spec(candidates: Seq<String>, exists: Seq<bool>) -> Seq<ProjectionEvent>
    decreases candidates.len(),
{
    upserts_spec(candidates, exists) + removals_spec(candidates, exists)
}

/// The write events, in candidate order.
pub open spec fn upserts_spec(candidates: Seq<String>, exists: Seq<bool>) -> Seq<ProjectionEvent>
    decreases candidates.len(),
{
    if candidates.len() == 0 || exists.len() == 0 {
        Seq::empty()
    } else {
        let rest = upserts_spec(candidates.drop_last(), exists.drop_last());
        if exists.last() {
            rest.push(ProjectionEvent::Upsert(candidates.last()))
        } else {
            rest
        }
    }
}

/// The removal events, in candidate order.
pub open spec fn removals_spec(candidates: Seq<String>, exists: Seq<bool>) -> Seq<ProjectionEvent>
    decreases candidates.len(),
{
    if candidates.len() == 0 || exists.len() == 0 {
        Seq::empty()
    } else {
        let rest = removals_spec(candidates.drop_last(), exists.drop_last());
        if exists.last() {
            rest
        } else {
            rest.push(ProjectionEvent::Remove(candidates.last()))
        }
    }
}

/// Turn settled candidate paths into events: a path that is now a file is
/// written, any other path was removed; writes come first.
pub fn order_events(candidates: Vec<String>, exists: &Vec<bool>) -> (result: Vec<ProjectionEvent>)
    requires
        candidates@.len() == exists@.len(),
    ensures
        result@ == events_spec(candidates@, exists@),
{
    let ghost all = candidates@;
    let mut upserts: Vec<ProjectionEvent> = Vec::new();
    let mut removals: Vec<ProjectionEvent> = Vec::new();
    let mut i: usize = 0;
    let mut rest = candidates;
    proof {
        assert(all.take(0) =~= Seq::<String>::empty());
        assert(exists@.take(0) =~= Seq::<bool>::empty());
    }
    while i < exists.len()
        invariant
            all.len() == exists@.len(),
            i <= exists@.len(),
            rest@ == all.skip(i as int),
            upserts@ == upserts_spec(all.take(i as int), exists@.take(i as int)),
            removals@ == removals_spec(all.take(i as int), exists@.take(i as int)),
        decreases exists@.len() - i,
    {
        let path = rest.remove(0);
        proof {
            assert(all.take(i + 1).drop_last() =~= all.take(i as int));
            assert(exists@.take(i + 1).drop_last() =~= exists@.take(i as int));
            assert(rest@ =~= all.skip(i + 1));
        }
        if exists[i] {
            upserts.push(ProjectionEvent::Upsert(path));
        } else {
            removals.push(ProjectionEvent::Remove(path));
        }
        i = i + 1;
    }
    proof {
        assert(all.take(i as int) =~= all);
        assert(exists@.take(i as int) =~= exists@);
    }
    upserts.append(&mut removals);
    upserts
}

} // verus!
