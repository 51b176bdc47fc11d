pub mod codepaths;

use vstd::prelude::*;
use crate::paths::{file_name_of, path_file_name};
use crate::text::{last_index_of, last_index, chars_of, string_from, string_from_range};
use crate::text::{seq_contains, seq_ends_with, seq_starts_with, str_contains, str_ends_with, str_starts_with, concat, owned};

verus! {

/// The path with a leading `/`, so that directory patterns also match at
/// the start of a relative path.
pub open spec fn slash_prefixed(path: Seq<char>) -> Seq<char> {
    if seq_starts_with(path, "/"@) { path } else { "/"@ + path }
}

/// The file-name rule for tests: a non-empty stem that ends with `_test`,
/// `.test`, `.spec` or `_spec`, or begins with `test_`.
pub open spec fn is_test_stem(stem: Seq<char>) -> bool {
    stem.len() > 0 && (
        seq_ends_with(stem, "_test"@) || seq_ends_with(stem, ".test"@)
        || seq_ends_with(stem, ".spec"@) || seq_ends_with(stem, "_spec"@)
        || seq_starts_with(stem, "test_"@))
}

/// A file name cut before its last `.`: empty when that `.` is the first
/// character, the whole name when there is none.
pub open spec fn before_last_dot(name: Seq<char>) -> Seq<char> {
    match last_index_of(name, '.') {
        Some(d) => name.take(d),
        None => name,
    }
}

/// A file name cut before its last `.`.
pub fn cut_before_last_dot(name: &str) -> (res: String)
    ensures
        res@ == before_last_dot(name@),
{
    let chars = chars_of(name);
    match last_index(chars.as_slice(), '.') {
        Some(d) => {
            let stem = string_from_range(chars.as_slice(), 0, d);
            assert(stem@ =~= name@.take(d as int));
            stem
        },
        None => string_from(chars.as_slice()),
    }
}

/// Whether a relative file path looks like a test file: it lies under a
/// `tests/`, `test/` or `__tests__/` directory, or its file name, cut
/// before the last `.`, follows the test naming rule.
pub open spec fn is_test_path(path: Seq<char>) -> bool {
    let p = slash_prefixed(path);
    ||| seq_contains(p, "/tests/"@)
    ||| seq_contains(p, "/test/"@)
    ||| seq_contains(p, "/__tests__/"@)
    ||| is_test_stem(before_last_dot(
        match file_name_of(path) { Some(name) => name, None => Seq::empty() }))
}

/// Returns true if the relative file path looks like a test file.
/// Checks directory patterns (tests/, test/, __tests__/) and
/// filename patterns (_test, .test, .spec, _spec suffixes; test_ prefix).
pub fn is_test_file(relative_path: &str) -> (res: bool)
    ensures
        res == is_test_path(relative_path@),
{
    let path_with_slash = if str_starts_with(relative_path, "/") {
        owned(relative_path)
    } else {
        concat("/", relative_path)
    };
    if str_contains(path_with_slash.as_str(), "/tests/")
        || str_contains(path_with_slash.as_str(), "/test/")
        || str_contains(path_with_slash.as_str(), "/__tests__/")
    {
        return true;
    }

    let file_name = match path_file_name(relative_path) {
        Some(name) => name,
        None => owned(""),
    };
    proof {
        reveal_strlit("");
        assert(""@ =~= Seq::<char>::empty());
    }
    let stem = cut_before_last_dot(file_name.as_str());
    if stem.as_str().is_empty() {
        return false;
    }
    if str_ends_with(stem.as_str(), "_test")
        || str_ends_with(stem.as_str(), ".test")
        || str_ends_with(stem.as_str(), ".spec")
        || str_ends_with(stem.as_str(), "_spec")
    {
        return true;
    }
    str_starts_with(stem.as_str(), "test_")
}

} // verus!
