//! Where the small copy of a picture is kept: beside it, named `mini_` and
//! the picture's name.

use vstd::prelude::*;

use crate::text::{has_prefix, join3};

verus! {

/// The last component of `path` as text, as `std::path::Path::file_name`
/// gives it; `None` where the path has no final normal component (it ends in
/// `..`, or is a root or empty).
pub uninterp spec fn path_file_name(path: Seq<char>) -> Option<Seq<char>>;

/// `path` without its last component, as `std::path::Path::parent` gives it;
/// `None` for a root or an empty path.
pub uninterp spec fn path_parent(path: Seq<char>) -> Option<Seq<char>>;

/// `name` is a plain last component: not empty, without a separator (`/` or
/// `\\`), and neither `.` nor `..`.
pub open spec fn is_plain_name(name: Seq<char>) -> bool {
    &&& name.len() > 0
    &&& !name.contains('/')
    &&& !name.contains('\\')
    &&& name != "."@
    &&& name != ".."@
}

/// `path` is some folder, a `/`, then the plain name `name`; it holds no
/// `\\` and does not start with `//` (so no platform reads a special prefix
/// into it).
pub open spec fn ends_in_name(path: Seq<char>, name: Seq<char>) -> bool {
    &&& is_plain_name(name)
    &&& ("/"@ + name).is_suffix_of(path)
    &&& !path.contains('\\')
    &&& !"//"@.is_prefix_of(path)
}

/// Calls `std::path::Path::file_name` on `path` and reads the name back as
/// text. Its contract claims that the result is a function of `path`, and, as
/// the documentation says ("the final component of the Path"; `/` separates
/// components; a `.` component is normalized away and a path ending in `..`
/// has none), that a path ending in `/` and a plain name gives that name.
#[verifier::external_body]
fn file_name_of(path: &str) -> (r: Option<String>)
    ensures
        match r {
            Some(n) => path_file_name(path@) == Some(n@),
            None => path_file_name(path@) is None,
        },
        match r {
            Some(n) => forall|name: Seq<char>| #[trigger] ends_in_name(path@, name) ==> n@ == name,
            None => forall|name: Seq<char>| !#[trigger] ends_in_name(path@, name),
        },
{
    match std::path::Path::new(path).file_name() {
        Some(n) => Some(n.to_string_lossy().into_owned()),
        None => None,
    }
}

/// Calls `std::path::Path::parent` on `path` and reads the folder back as
/// text. Its contract claims that the result is a function of `path`, and, as
/// the documentation says (`None` only where the path ends in a root or a
/// prefix, or is empty), that a path ending in a plain name has a folder.
#[verifier::external_body]
fn parent_of(path: &str) -> (r: Option<String>)
    ensures
        match r {
            Some(d) => path_parent(path@) == Some(d@),
            None => path_parent(path@) is None,
        },
        match r {
            Some(_) => true,
            None => forall|name: Seq<char>| !#[trigger] ends_in_name(path@, name),
        },
{
    match std::path::Path::new(path).parent() {
        Some(d) => Some(d.to_string_lossy().into_owned()),
        None => None,
    }
}

/// Where the thumbnail of a picture is.
#[derive(Debug)]
pub enum Thumbnail {
    /// The picture is itself a thumbnail.
    Itself,
    /// The thumbnail is (or is to be made) at this path.
    At(String),
}

/// The thumbnail of the picture whose file name is `name` and whose folder is
/// `parent`: the picture itself when its name starts with `mini_`, else
/// `<parent>/mini_<name>`. `None` where the picture has no name, or needs a
/// thumbnail and has no folder.
pub fn thumbnail_target(name: Option<String>, parent: Option<String>) -> (r: Option<Thumbnail>)
    ensures
        match name {
            None => r is None,
            Some(n) => if "mini_"@.is_prefix_of(n@) {
                r matches Some(Thumbnail::Itself)
            } else {
                match parent {
                    None => r is None,
                    Some(d) => r matches Some(Thumbnail::At(t)) && t@ == d@ + "/mini_"@ + n@,
                }
            },
        },
{
    match name {
        None => None,
        Some(n) => {
            if has_prefix(n.as_str(), "mini_") {
                Some(Thumbnail::Itself)
            } else {
                match parent {
                    None => None,
                    Some(d) => Some(Thumbnail::At(join3(d.as_str(), "/mini_", n.as_str()))),
                }
            }
        },
    }
}

/// The thumbnail of the picture at `path`, found from the path's file name and
/// folder (see `thumbnail_target`).
pub fn thumbnail_plan(path: &str) -> (r: Option<Thumbnail>)
    ensures
        match path_file_name(path@) {
            None => r is None,
            Some(n) => if "mini_"@.is_prefix_of(n) {
                r matches Some(Thumbnail::Itself)
            } else {
                match path_parent(path@) {
                    None => r is None,
                    Some(d) => r matches Some(Thumbnail::At(t)) && t@ == d + "/mini_"@ + n,
                }
            },
        },
        forall|name: Seq<char>| #[trigger] ends_in_name(path@, name) ==> if "mini_"@.is_prefix_of(name) {
            r matches Some(Thumbnail::Itself)
        } else {
            r matches Some(Thumbnail::At(t)) && path_parent(path@) is Some && t@ == path_parent(path@)->0
                + "/mini_"@ + name
        },
{
    let name = file_name_of(path);
    let parent = parent_of(path);
    thumbnail_target(name, parent)
}

/// The thumbnail of a picture whose path ends in the plain name `name` is in
/// the same folder and ends in the plain name `mini_<name>`, so that asking
/// again for the thumbnail of the thumbnail gives the thumbnail itself.
pub proof fn lemma_thumbnail_names_a_thumbnail(folder: Seq<char>, name: Seq<char>)
    requires
        is_plain_name(name),
        !folder.contains('\\'),
        !"//"@.is_prefix_of(folder + "/mini_"@ + name),
    ensures
        ends_in_name(folder + "/mini_"@ + name, "mini_"@ + name),
        "mini_"@.is_prefix_of("mini_"@ + name),
{
    reveal_strlit("mini_");
    reveal_strlit("/mini_");
    reveal_strlit("/");
    reveal_strlit(".");
    reveal_strlit("..");
    let m = "mini_"@ + name;
    let t = folder + "/mini_"@ + name;
    assert("/mini_"@ =~= "/"@ + "mini_"@);
    assert(t =~= folder + ("/"@ + m));
    assert(("/"@ + m).is_suffix_of(t)) by {
        assert(t.subrange(t.len() - ("/"@ + m).len(), t.len() as int) =~= "/"@ + m);
    }
    assert(!m.contains('/')) by {
        if m.contains('/') {
            let i = choose|i: int| 0 <= i < m.len() && m[i] == '/';
            if i >= 5 {
                assert(name[i - 5] == '/');
            }
        }
    }
    assert(!m.contains('\\')) by {
        if m.contains('\\') {
            let i = choose|i: int| 0 <= i < m.len() && m[i] == '\\';
            if i >= 5 {
                assert(name[i - 5] == '\\');
            }
        }
    }
    assert(!t.contains('\\')) by {
        if t.contains('\\') {
            let i = choose|i: int| 0 <= i < t.len() && t[i] == '\\';
            if i < folder.len() {
                assert(folder[i] == '\\');
            } else if i >= folder.len() + 6 {
                assert(name[i - folder.len() - 6] == '\\');
            }
        }
    }
    assert(m.len() > 2);
    assert(m != "."@);
    assert(m != ".."@);
    assert("mini_"@.is_prefix_of(m)) by {
        assert(m.subrange(0, 5) =~= "mini_"@);
    }
}

} // verus!
