//! Paths, written as strings, and the operations of `std::path` on them.
//!
//! Each operation is the one of `std::path::Path`; its result is stated of
//! the path texts, exactly for joining and by name for the others.
use vstd::prelude::*;

use crate::support::push_char;

verus! {

/// The text of `Path::new(path).with_extension(extension)`.
pub uninterp spec fn path_with_extension(path: Seq<char>, extension: Seq<char>) -> Seq<char>;

/// The text of `Path::new(base).join(path)` on Unix: an absolute `path`
/// replaces `base`; else `path` follows `base`, with a `/` between them
/// where `base` is not empty and does not end in one.
pub open spec fn path_join(base: Seq<char>, path: Seq<char>) -> Seq<char> {
    if path.len() > 0 && path[0] == '/' {
        path
    } else if base.len() > 0 && base.last() != '/' {
        base.push('/') + path
    } else {
        base + path
    }
}

/// The text of `Path::new(path).file_name()`, where there is one.
pub uninterp spec fn path_file_name(path: Seq<char>) -> Option<Seq<char>>;

/// The text of `Path::new(path).strip_prefix(prefix)`, where `prefix` is a
/// prefix of `path`.
pub uninterp spec fn path_strip_prefix(path: Seq<char>, prefix: Seq<char>) -> Option<Seq<char>>;

/// `std::path::Path::with_extension`: the path with its extension replaced
/// by `extension` (or removed, for an empty one). The result is built from
/// two UTF-8 texts, so its text is exact. The call panics where `extension`
/// holds a path separator (`/` on the Unix systems this library runs on), so
/// such extensions are left out.
#[verifier::external_body]
pub(crate) fn with_extension(path: &str, extension: &str) -> (r: String)
    requires
        !extension@.contains('/'),
    ensures
        r@ == path_with_extension(path@, extension@),
{
    std::path::Path::new(path).with_extension(extension).to_string_lossy().into_owned()
}

/// `path` adjoined to `base` (replacing it where `path` is absolute), as
/// `Path::join` does on Unix.
pub(crate) fn join(base: &str, path: &str) -> (r: String)
    ensures
        r@ == path_join(base@, path@),
{
    let path_len = path.unicode_len();
    if path_len > 0 && path.get_char(0) == '/' {
        return String::from_str(path);
    }
    let base_len = base.unicode_len();
    let mut r = String::from_str(base);
    if base_len > 0 && base.get_char(base_len - 1) != '/' {
        push_char(&mut r, '/');
    }
    r.append(path);
    r
}

/// `std::path::Path::file_name`: the final component of the path, if it is
/// a normal file or directory name.
#[verifier::external_body]
pub(crate) fn file_name(path: &str) -> (r: Option<String>)
    ensures
        r matches Some(n) ==> path_file_name(path@) == Some(n@),
        r is None ==> path_file_name(path@) is None,
{
    match std::path::Path::new(path).file_name() {
        Some(name) => Some(name.to_string_lossy().into_owned()),
        None => None,
    }
}

/// `std::path::Path::strip_prefix`: the rest of the path after `prefix`,
/// where the components of `prefix` begin the path.
#[verifier::external_body]
pub(crate) fn strip_prefix(path: &str, prefix: &str) -> (r: Option<String>)
    ensures
        r matches Some(rest) ==> path_strip_prefix(path@, prefix@) == Some(rest@),
        r is None ==> path_strip_prefix(path@, prefix@) is None,
{
    match std::path::Path::new(path).strip_prefix(prefix) {
        Ok(rest) => Some(rest.to_string_lossy().into_owned()),
        Err(_) => None,
    }
}

} // verus!
