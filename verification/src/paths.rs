//! Views of `/`-separated relative paths, as the library reads them.
use vstd::prelude::*;
use crate::text::{chars_of, empty_string, last_index, last_index_of, string_from, string_from_range, owned, concat,
    push_str, seq_ends_with, str_ends_with};

verus! {

/// The final component of `path`, as `std::path::Path::file_name` returns it.
pub uninterp spec fn file_name_of(path: Seq<char>) -> Option<Seq<char>>;

/// The path without its final component, as `std::path::Path::parent` returns it.
pub uninterp spec fn parent_of(path: Seq<char>) -> Option<Seq<char>>;

/// The final component of a path (`std::path::Path::file_name`).
/// The result is the name `file_name_of` applied to the path; what that name is
/// on given paths is std's rule (trailing separators and `.` components are
/// ignored, a trailing `..` has none) and is not restated here.
#[verifier::external_body]
pub(crate) fn path_file_name(path: &str) -> (res: Option<String>)
    ensures
        match res {
            Some(name) => file_name_of(path@) == Some(name@),
            None => file_name_of(path@) is None,
        },
{
    std::path::Path::new(path).file_name().map(|name| name.to_string_lossy().into_owned())
}

/// The parent of a path (`std::path::Path::parent`), as a string.
/// The result is the name `parent_of` applied to the path.
#[verifier::external_body]
pub(crate) fn path_parent(path: &str) -> (res: Option<String>)
    ensures
        match res {
            Some(parent) => parent_of(path@) == Some(parent@),
            None => parent_of(path@) is None,
        },
{
    std::path::Path::new(path).parent().map(|parent| parent.to_string_lossy().into_owned())
}

/// The extension of a file name, as `Path::extension` defines it from the
/// name: the part after the final `.`, unless there is no `.` or the only
/// `.` starts the name.
pub open spec fn extension_of_name(name: Seq<char>) -> Option<Seq<char>> {
    match last_index_of(name, '.') {
        Some(d) => if d == 0 { None } else { Some(name.skip(d + 1)) },
        None => None,
    }
}

/// The stem of a file name, as `Path::file_stem` defines it from the name:
/// the part before the final `.`, or the whole name when there is no `.` or
/// the only `.` starts the name.
pub open spec fn stem_of_name(name: Seq<char>) -> Seq<char> {
    match last_index_of(name, '.') {
        Some(d) => if d == 0 { name } else { name.take(d) },
        None => name,
    }
}

/// The extension of the file that `path` names.
pub open spec fn extension_of(path: Seq<char>) -> Option<Seq<char>> {
    match file_name_of(path) {
        Some(name) => extension_of_name(name),
        None => None,
    }
}

/// The file stem of `path`; empty where the path has no file name.
pub open spec fn stem_of(path: Seq<char>) -> Seq<char> {
    match file_name_of(path) {
        Some(name) => stem_of_name(name),
        None => Seq::empty(),
    }
}

/// The extension of a file name (`Path::extension`, given the name).
pub fn name_extension(name: &str) -> (res: Option<String>)
    ensures
        match res {
            Some(e) => extension_of_name(name@) == Some(e@),
            None => extension_of_name(name@) is None,
        },
{
    let chars = chars_of(name);
    let n = chars.len();
    match last_index(chars.as_slice(), '.') {
        Some(d) => {
            if d == 0 {
                None
            } else {
                let rest = string_from_range(chars.as_slice(), d + 1, n);
                proof {
                    assert(rest@ =~= name@.skip(d + 1));
                }
                Some(rest)
            }
        },
        None => None,
    }
}

/// The stem of a file name (`Path::file_stem`, given the name).
pub fn name_stem(name: &str) -> (res: String)
    ensures
        res@ == stem_of_name(name@),
{
    let chars = chars_of(name);
    match last_index(chars.as_slice(), '.') {
        Some(d) => {
            if d == 0 {
                string_from(chars.as_slice())
            } else {
                let stem = string_from_range(chars.as_slice(), 0, d);
                proof {
                    assert(stem@ =~= name@.take(d as int));
                }
                stem
            }
        },
        None => string_from(chars.as_slice()),
    }
}

/// The extension of the file that `path` names (`Path::extension`).
pub fn path_extension(path: &str) -> (res: Option<String>)
    ensures
        match res {
            Some(e) => extension_of(path@) == Some(e@),
            None => extension_of(path@) is None,
        },
{
    match path_file_name(path) {
        Some(name) => name_extension(name.as_str()),
        None => None,
    }
}

/// The stem of the file that `path` names (`Path::file_stem`), or `""`.
pub fn path_stem(path: &str) -> (res: String)
    ensures
        res@ == stem_of(path@),
{
    match path_file_name(path) {
        Some(name) => name_stem(name.as_str()),
        None => empty_string(),
    }
}

/// `comp` appended to the path `base`, with a `/` between unless `base`
/// is empty or ends in one.
pub open spec fn joined_path(base: Seq<char>, comp: Seq<char>) -> Seq<char> {
    if base.len() == 0 { comp } else if seq_ends_with(base, "/"@) { base + comp } else { base + "/"@ + comp }
}

pub fn path_join(base: &str, comp: &str) -> (res: String)
    ensures
        res@ == joined_path(base@, comp@),
{
    if base.is_empty() {
        owned(comp)
    } else if str_ends_with(base, "/") {
        concat(base, comp)
    } else {
        let mut out = concat(base, "/");
        push_str(&mut out, comp);
        out
    }
}

} // verus!
