use vstd::prelude::*;
use crate::analysis::{is_test_file, is_test_path};
use crate::paths::{path_extension, extension_of};
use crate::text::{str_eq, str_lt, seq_lt, lemma_seq_lt_transitive, lemma_seq_lt_total, lemma_seq_lt_irreflexive,
    lemma_seq_lt_asymmetric};
use super::types::Language;

verus! {

/// The language of a file extension, if it is one of those analysed.
pub open spec fn language_of_extension(e: Seq<char>) -> Option<Language> {
    if e == "rs"@ {
        Some(Language::Rust)
    } else if e == "py"@ {
        Some(Language::Python)
    } else if e == "js"@ {
        Some(Language::JavaScript)
    } else if e == "jsx"@ {
        Some(Language::Jsx)
    } else if e == "svelte"@ {
        Some(Language::Svelte)
    } else if e == "ts"@ {
        Some(Language::TypeScript)
    } else if e == "tsx"@ {
        Some(Language::Tsx)
    } else {
        None
    }
}

/// The language of a file, by its extension.
pub open spec fn language_of_path(path: Seq<char>) -> Option<Language> {
    match extension_of(path) {
        Some(e) => language_of_extension(e),
        None => None,
    }
}

/// The language of a file, by its extension.
pub fn language_for_path(path: &str) -> (res: Option<Language>)
    ensures
        res == language_of_path(path@),
{
    let extension = match path_extension(path) {
        Some(e) => e,
        None => {
            return None;
        },
    };
    let e = extension.as_str();
    if str_eq(e, "rs") {
        Some(Language::Rust)
    } else if str_eq(e, "py") {
        Some(Language::Python)
    } else if str_eq(e, "js") {
        Some(Language::JavaScript)
    } else if str_eq(e, "jsx") {
        Some(Language::Jsx)
    } else if str_eq(e, "svelte") {
        Some(Language::Svelte)
    } else if str_eq(e, "ts") {
        Some(Language::TypeScript)
    } else if str_eq(e, "tsx") {
        Some(Language::Tsx)
    } else {
        None
    }
}

/// A source file: its path relative to the repository, and its full path.
pub struct SourceFile {
    pub relative: String,
    pub path: String,
}

/// Whether a file of the walk belongs to `language`'s graph.
pub open spec fn file_counts(relative: Seq<char>, path: Seq<char>, include_tests: bool, language: Language) -> bool {
    language_of_path(path) == Some(language) && (include_tests || !is_test_path(relative))
}

/// The files of the walk up to `k` that belong to `language`'s graph,
/// keyed by relative path; a later file of the same relative path wins.
pub open spec fn files_map(files: Seq<SourceFile>, include_tests: bool, language: Language, k: int)
    -> Map<Seq<char>, Seq<char>>
    decreases k,
{
    if k <= 0 || k > files.len() {
        Map::empty()
    } else {
        let prev = files_map(files, include_tests, language, k - 1);
        let f = files[k - 1];
        if file_counts(f.relative@, f.path@, include_tests, language) {
            prev.insert(f.relative@, f.path@)
        } else {
            prev
        }
    }
}

/// A list of files in strictly increasing order of relative path.
pub open spec fn sorted_files(v: Seq<SourceFile>) -> bool {
    forall|a: int, b: int| 0 <= a < b < v.len() ==> seq_lt(v[a].relative@, v[b].relative@)
}

/// A sorted list holding just the entries of `m`.
pub open spec fn lists_map(v: Seq<SourceFile>, m: Map<Seq<char>, Seq<char>>) -> bool {
    &&& sorted_files(v)
    &&& forall|r: Seq<char>| #[trigger] m.contains_key(r) <==> exists|i: int| 0 <= i < v.len() && v[i].relative@ == r
    &&& forall|i: int| 0 <= i < v.len() ==> m.contains_key((#[trigger] v[i]).relative@) && m[v[i].relative@] == v[i].path@
}

/// Puts a file in a sorted list, in place of one of the same relative path.
fn insert_file(v: Vec<SourceFile>, f: SourceFile, m: Ghost<Map<Seq<char>, Seq<char>>>) -> (res: Vec<SourceFile>)
    requires
        lists_map(v@, m@),
    ensures
        lists_map(res@, m@.insert(f.relative@, f.path@)),
{
    let mut v = v;
    let mut pos: usize = 0;
    while pos < v.len() && str_lt(v[pos].relative.as_str(), f.relative.as_str())
        invariant
            pos <= v@.len(),
            lists_map(v@, m@),
            forall|a: int| 0 <= a < pos ==> seq_lt(v@[a].relative@, f.relative@),
        decreases v@.len() - pos,
    {
        pos = pos + 1;
    }
    let ghost old_v = v@;
    let m2 = Ghost(m@.insert(f.relative@, f.path@));
    if pos < v.len() && str_eq(v[pos].relative.as_str(), f.relative.as_str()) {
        v.set(pos, f);
        proof {
            assert forall|a: int, b: int| 0 <= a < b < v@.len() implies seq_lt(v@[a].relative@, v@[b].relative@) by {
                assert(v@[a].relative@ == old_v[a].relative@);
                assert(v@[b].relative@ == old_v[b].relative@);
            }
            assert forall|r: Seq<char>| #[trigger] m2@.contains_key(r) <==> exists|i: int| 0 <= i < v@.len() && v@[i].relative@ == r by {
                if m@.contains_key(r) {
                    let i = choose|i: int| 0 <= i < old_v.len() && old_v[i].relative@ == r;
                    assert(v@[i].relative@ == r);
                }
                if exists|i: int| 0 <= i < v@.len() && v@[i].relative@ == r {
                    let i = choose|i: int| 0 <= i < v@.len() && v@[i].relative@ == r;
                    assert(old_v[i].relative@ == r);
                }
            }
            assert forall|i: int| 0 <= i < v@.len() implies m2@.contains_key((#[trigger] v@[i]).relative@)
                && m2@[v@[i].relative@] == v@[i].path@ by {
                if i != pos {
                    assert(v@[i] == old_v[i]);
                    if old_v[i].relative@ == f.relative@ {
                        lemma_seq_lt_irreflexive(f.relative@);
                        if i < pos {
                            lemma_seq_lt_asymmetric(old_v[i].relative@, old_v[pos as int].relative@);
                        } else {
                            lemma_seq_lt_asymmetric(old_v[pos as int].relative@, old_v[i].relative@);
                        }
                    }
                }
            }
        }
        return v;
    }
    v.insert(pos, f);
    proof {
        assert(v@ =~= old_v.insert(pos as int, f));
        if pos < old_v.len() {
            lemma_seq_lt_total(f.relative@, old_v[pos as int].relative@);
        }
        assert forall|a: int, b: int| 0 <= a < b < v@.len() implies seq_lt(v@[a].relative@, v@[b].relative@) by {
            if a < pos && b == pos {
            } else if a < pos && b > pos {
                assert(v@[b] == old_v[b - 1]);
            } else if a == pos && b > pos {
                assert(v@[b] == old_v[b - 1]);
                if b - 1 > pos {
                    lemma_seq_lt_transitive(f.relative@, old_v[pos as int].relative@, old_v[b - 1].relative@);
                }
            } else if a > pos {
                assert(v@[a] == old_v[a - 1]);
                assert(v@[b] == old_v[b - 1]);
            }
        }
        assert forall|r: Seq<char>| #[trigger] m2@.contains_key(r) <==> exists|i: int| 0 <= i < v@.len() && v@[i].relative@ == r by {
            if m@.contains_key(r) {
                let i = choose|i: int| 0 <= i < old_v.len() && old_v[i].relative@ == r;
                if i < pos {
                    assert(v@[i].relative@ == r);
                } else {
                    assert(v@[i + 1].relative@ == r);
                }
            }
            if r == f.relative@ {
                assert(v@[pos as int].relative@ == r);
            }
            if exists|i: int| 0 <= i < v@.len() && v@[i].relative@ == r {
                let i = choose|i: int| 0 <= i < v@.len() && v@[i].relative@ == r;
                if i < pos {
                    assert(old_v[i].relative@ == r);
                } else if i > pos {
                    assert(old_v[i - 1].relative@ == r);
                }
            }
        }
        assert forall|i: int| 0 <= i < v@.len() implies m2@.contains_key((#[trigger] v@[i]).relative@)
            && m2@[v@[i].relative@] == v@[i].path@ by {
            if i < pos {
                assert(v@[i] == old_v[i]);
                lemma_seq_lt_irreflexive(f.relative@);
            } else if i > pos {
                assert(v@[i] == old_v[i - 1]);
                if old_v[i - 1].relative@ == f.relative@ {
                    lemma_seq_lt_irreflexive(f.relative@);
                    if i - 1 > pos {
                        lemma_seq_lt_transitive(f.relative@, old_v[pos as int].relative@, old_v[i - 1].relative@);
                    }
                }
            }
        }
    }
    v
}

/// The files of a walk of the repository that belong to `language`'s
/// graph, by relative path; test files only when `include_tests`.
pub fn collect_relevant_files_for_language(files: &Vec<SourceFile>, include_tests: bool, language: Language)
    -> (res: Vec<SourceFile>)
    ensures
        lists_map(res@, files_map(files@, include_tests, language, files@.len() as int)),
{
    let mut res: Vec<SourceFile> = Vec::new();
    let mut i: usize = 0;
    while i < files.len()
        invariant
            i <= files@.len(),
            lists_map(res@, files_map(files@, include_tests, language, i as int)),
        decreases files@.len() - i,
    {
        let f = &files[i];
        let counts = match language_for_path(f.path.as_str()) {
            Some(l) => l == language && (include_tests || !is_test_file(f.relative.as_str())),
            None => false,
        };
        if counts {
            let copy = SourceFile { relative: f.relative.clone(), path: f.path.clone() };
            res = insert_file(res, copy, Ghost(files_map(files@, include_tests, language, i as int)));
        }
        i = i + 1;
    }
    res
}

} // verus!
