pub mod syntax;
pub mod rust;
pub mod python;
pub mod javascript;
pub mod svelte;
use vstd::prelude::*;
use crate::paths::{file_name_of, parent_of, path_file_name, path_parent, path_stem, stem_of};
use crate::text::{empty_string, str_eq, str_starts_with, joined, join, owned, seq_starts_with};
use crate::analysis::codepaths::types::{Language, strings_view, lemma_strings_view_push, CallSite, CallSiteV,
    ReferenceSite, ReferenceSiteV, GraphReferenceKind, FunctionArtifact, FunctionArtifactV, opt_string_view};
use crate::text::concat;
use crate::analysis::{is_test_file, is_test_path};
use crate::analysis::codepaths::types::{FileArtifact, FileArtifactV, all_of_language};
use vstd::utf8::encode_utf8;
use syntax::{parsed_tree, parse_tree, tree_opt_view};
use rust::{rs_extract, lemma_rs_fns_language};
use python::{py_extract, lemma_py_fns_language};
use javascript::{js_extract, lemma_js_fns_language};
use svelte::{sv_extract, lemma_sv_extract_language};

verus! {

/// The module a file defines, as the last path segment names it: the file
/// stem, or the directory name for `mod`, `lib` and `main` files.
pub open spec fn module_name_of(path: Seq<char>) -> Seq<char> {
    let stem = stem_of(path);
    if stem == "mod"@ || stem == "lib"@ || stem == "main"@ {
        match parent_of(path) {
            Some(parent) => match file_name_of(parent) {
                Some(name) => name,
                None => Seq::empty(),
            },
            None => Seq::empty(),
        }
    } else {
        stem
    }
}

pub fn module_name_from_path(path: &str) -> (res: String)
    ensures
        res@ == module_name_of(path@),
{
    let stem = path_stem(path);
    if str_eq(stem.as_str(), "mod") || str_eq(stem.as_str(), "lib") || str_eq(stem.as_str(), "main") {
        match path_parent(path) {
            Some(parent) => match path_file_name(parent.as_str()) {
                Some(name) => name,
                None => empty_string(),
            },
            None => empty_string(),
        }
    } else {
        stem
    }
}

/// What the extraction of one file knows: its language, the module it
/// defines, whether the file is a test file, and whether tests are kept.
pub struct ParseContext {
    pub language: Language,
    pub module_name: String,
    pub file_is_test: bool,
    pub include_tests: bool,
}

#[verifier::ext_equal]
pub struct ParseContextV {
    pub language: Language,
    pub module_name: Seq<char>,
    pub file_is_test: bool,
    pub include_tests: bool,
}

impl View for ParseContext {
    type V = ParseContextV;

    open spec fn view(&self) -> ParseContextV {
        ParseContextV {
            language: self.language,
            module_name: self.module_name@,
            file_is_test: self.file_is_test,
            include_tests: self.include_tests,
        }
    }
}

/// The segments of a qualified name: the module when there is one, the
/// enclosing scopes, the name.
pub open spec fn name_segments(module: Seq<char>, scopes: Seq<Seq<char>>, name: Seq<char>) -> Seq<Seq<char>> {
    if module.len() == 0 { scopes.push(name) } else { seq![module] + scopes.push(name) }
}

/// A name qualified by its module and enclosing scopes, joined by `::`.
pub open spec fn qualified_spec(module: Seq<char>, scopes: Seq<Seq<char>>, name: Seq<char>) -> Seq<char> {
    joined(name_segments(module, scopes, name), "::"@)
}

/// A function is a test when its file is, or when its name starts with
/// `test`.
pub open spec fn function_is_test_spec(ctx: ParseContextV, name: Seq<char>) -> bool {
    ctx.file_is_test || seq_starts_with(name, "test"@)
}

/// The line number of a row: rows count from zero, lines from one.
pub open spec fn line_of_row(row: usize) -> usize {
    if row < usize::MAX { (row + 1) as usize } else { 0 }
}

pub fn row_line(row: usize) -> (res: usize)
    ensures
        res == line_of_row(row),
{
    if row < usize::MAX { row + 1 } else { 0 }
}

impl ParseContext {
    /// `name` qualified by the module and the enclosing `scopes`.
    pub fn qualified_name(&self, scopes: &Vec<String>, name: &str) -> (res: String)
        ensures
            res@ == qualified_spec(self.module_name@, strings_view(scopes@), name@),
    {
        let mut parts: Vec<String> = Vec::new();
        if self.module_name.as_str().unicode_len() > 0 {
            let m = owned(self.module_name.as_str());
            proof {
                lemma_strings_view_push(parts@, m);
            }
            parts.push(m);
        }
        let ghost start = strings_view(parts@);
        assert(start =~= (if self.module_name@.len() == 0 { Seq::<Seq<char>>::empty() } else { seq![self.module_name@] }));
        let mut i: usize = 0;
        while i < scopes.len()
            invariant
                i <= scopes@.len(),
                start == (if self.module_name@.len() == 0 { Seq::<Seq<char>>::empty() } else { seq![self.module_name@] }),
                strings_view(parts@) == start + strings_view(scopes@).take(i as int),
            decreases scopes@.len() - i,
        {
            let x = owned(scopes[i].as_str());
            proof {
                lemma_strings_view_push(parts@, x);
            }
            parts.push(x);
            i = i + 1;
            assert(strings_view(parts@) =~= start + strings_view(scopes@).take(i as int));
        }
        let x = owned(name);
        proof {
            lemma_strings_view_push(parts@, x);
        }
        parts.push(x);
        let ghost sv = strings_view(scopes@);
        assert(sv.take(scopes@.len() as int) =~= sv);
        assert(strings_view(parts@) =~= name_segments(self.module_name@, sv, name@));
        join(&parts, "::")
    }

    /// Whether a function of this name counts as a test.
    pub fn function_is_test(&self, name: &str) -> (res: bool)
        ensures
            res == function_is_test_spec(self@, name@),
    {
        self.file_is_test || str_starts_with(name, "test")
    }
}

// ---------------------------------------------------------------------
// Call and reference sites
// ---------------------------------------------------------------------

pub open spec fn call_sites_view(s: Seq<CallSite>) -> Seq<CallSiteV> {
    s.map_values(|c: CallSite| c@)
}

pub open spec fn ref_sites_view(s: Seq<ReferenceSite>) -> Seq<ReferenceSiteV> {
    s.map_values(|r: ReferenceSite| r@)
}

pub open spec fn functions_view(s: Seq<FunctionArtifact>) -> Seq<FunctionArtifactV> {
    s.map_values(|f: FunctionArtifact| f@)
}

pub proof fn lemma_call_sites_push(s: Seq<CallSite>, x: CallSite)
    ensures
        call_sites_view(s.push(x)) == call_sites_view(s).push(x@),
{
    assert(call_sites_view(s.push(x)) =~= call_sites_view(s).push(x@));
}

pub proof fn lemma_ref_sites_push(s: Seq<ReferenceSite>, x: ReferenceSite)
    ensures
        ref_sites_view(s.push(x)) == ref_sites_view(s).push(x@),
{
    assert(ref_sites_view(s.push(x)) =~= ref_sites_view(s).push(x@));
}

pub proof fn lemma_functions_push(s: Seq<FunctionArtifact>, x: FunctionArtifact)
    ensures
        functions_view(s.push(x)) == functions_view(s).push(x@),
{
    assert(functions_view(s.push(x)) =~= functions_view(s).push(x@));
}

/// The context of a reference passed to `callee`: `passed to <callee>`,
/// none when the callee has no name.
pub open spec fn passed_to(callee: Seq<char>) -> Option<Seq<char>> {
    if callee.len() == 0 { None } else { Some("passed to "@ + callee) }
}

/// The context of a reference passed to `callee`.
pub fn passed_to_context(callee: &str) -> (res: Option<String>)
    ensures
        opt_string_view(res) == passed_to(callee@),
{
    if callee.unicode_len() == 0 {
        None
    } else {
        Some(concat("passed to ", callee))
    }
}

/// `refs` with a reference to `target` in `context` added, unless it is
/// there already.
pub open spec fn add_ref(refs: Seq<ReferenceSiteV>, target: Seq<char>, context: Option<Seq<char>>) -> Seq<ReferenceSiteV> {
    let site = ReferenceSiteV { target_name: target, kind: GraphReferenceKind::Argument, context: context };
    if refs.contains(site) { refs } else { refs.push(site) }
}

/// Whether two optional texts are equal.
pub fn opt_str_eq(a: &Option<String>, b: &Option<String>) -> (res: bool)
    ensures
        res == (opt_string_view(*a) == opt_string_view(*b)),
{
    match (a, b) {
        (Some(x), Some(y)) => str_eq(x.as_str(), y.as_str()),
        (None, None) => true,
        _ => false,
    }
}

/// Adds a reference to `target` in `context`, unless it is there already.
pub fn add_reference(refs: &mut Vec<ReferenceSite>, target: String, context: Option<String>)
    ensures
        ref_sites_view(final(refs)@) == add_ref(ref_sites_view(old(refs)@), target@, opt_string_view(context)),
{
    let ghost site = ReferenceSiteV { target_name: target@, kind: GraphReferenceKind::Argument, context: opt_string_view(context) };
    let ghost rv = ref_sites_view(refs@);
    let mut i: usize = 0;
    while i < refs.len()
        invariant
            i <= refs@.len(),
            rv == ref_sites_view(refs@),
            site == (ReferenceSiteV { target_name: target@, kind: GraphReferenceKind::Argument, context: opt_string_view(context) }),
            forall|k: int| 0 <= k < i ==> rv[k] != site,
        decreases refs@.len() - i,
    {
        let r = &refs[i];
        assert(rv[i as int] == r@);
        let same_target = str_eq(r.target_name.as_str(), target.as_str());
        let same_context = opt_str_eq(&r.context, &context);
        assert(r.kind == GraphReferenceKind::Argument);
        if same_target && same_context {
            assert(r.target_name@ == target@);
            assert(opt_string_view(r.context) == opt_string_view(context));
            assert(r@ =~= site);
            assert(rv.contains(site));
            return;
        }
        proof {
            if r@ == site {
                assert(r@.target_name == site.target_name);
                assert(r@.context == site.context);
            }
        }
        i = i + 1;
    }
    assert(!rv.contains(site));
    let x = ReferenceSite { target_name: target, kind: GraphReferenceKind::Argument, context };
    proof {
        lemma_ref_sites_push(refs@, x);
    }
    refs.push(x);
}

// ---------------------------------------------------------------------
// Whole files
// ---------------------------------------------------------------------

/// What the extraction of the file at `relative_path` knows.
pub open spec fn context_for(relative_path: Seq<char>, include_tests: bool, language: Language) -> ParseContextV {
    ParseContextV {
        language: language,
        module_name: module_name_of(relative_path),
        file_is_test: is_test_path(relative_path),
        include_tests: include_tests,
    }
}

/// The functions of a tree in the extractor of its language.
pub open spec fn artifact_of_tree(v: Seq<syntax::SyntaxNodeV>, src: Seq<u8>, ctx: ParseContextV) -> FileArtifactV {
    match ctx.language {
        Language::Rust => rs_extract(v, src, ctx),
        Language::Python => py_extract(v, src, ctx),
        Language::Svelte => sv_extract(v, src, ctx),
        _ => js_extract(v, src, ctx),
    }
}

/// The functions of a source file, with their calls and references; none
/// when it does not parse. The source hash is left empty.
pub open spec fn file_artifact_spec(source: Seq<char>, relative_path: Seq<char>, include_tests: bool,
    language: Language) -> Option<FileArtifactV> {
    match parsed_tree(language, source) {
        Some(v) => Some(artifact_of_tree(v, encode_utf8(source), context_for(relative_path, include_tests, language))),
        None => None,
    }
}

/// Law: every function found in a file carries the language the file was
/// read as, whatever the parser gave back.
pub proof fn law_extracted_functions_carry_language(source: Seq<char>, relative_path: Seq<char>,
    include_tests: bool, language: Language)
    ensures
        file_artifact_spec(source, relative_path, include_tests, language) matches Some(f)
            ==> all_of_language(f.functions, language),
{
    if let Some(v) = parsed_tree(language, source) {
        let src = encode_utf8(source);
        let ctx = context_for(relative_path, include_tests, language);
        match language {
            Language::Rust => lemma_rs_fns_language(v, src, ctx, 0, false, Seq::empty()),
            Language::Python => lemma_py_fns_language(v, src, ctx, 0, Seq::empty(), Seq::empty()),
            Language::Svelte => lemma_sv_extract_language(v, src, ctx),
            _ => lemma_js_fns_language(v, src, ctx, 0, Seq::empty(), Seq::empty()),
        }
    }
}

/// The functions of a source file, with their calls and references.
pub fn extract_from_source(source: &str, relative_path: &str, include_tests: bool, language: Language)
    -> (res: Option<FileArtifact>)
    ensures
        match res {
            Some(a) => file_artifact_spec(source@, relative_path@, include_tests, language) == Some(a@),
            None => file_artifact_spec(source@, relative_path@, include_tests, language) is None,
        },
{
    let tree = match parse_tree(language, source) {
        Some(tree) => tree,
        None => {
            return None;
        },
    };
    let ctx = ParseContext {
        language,
        module_name: module_name_from_path(relative_path),
        file_is_test: is_test_file(relative_path),
        include_tests,
    };
    let src = source.as_bytes();
    let artifact = match language {
        Language::Rust => rust::extract(&tree, src, &ctx),
        Language::Python => python::extract(&tree, src, &ctx),
        Language::Svelte => svelte::extract(&tree, src, &ctx),
        _ => javascript::extract(&tree, src, &ctx),
    };
    Some(artifact)
}

} // verus!
