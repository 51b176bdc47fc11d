use vstd::prelude::*;

verus! {

/// The source languages whose call graphs are built.
#[derive(Debug, Clone, Copy, PartialEq, Eq, Structural, PartialOrd, Ord, Hash)]
pub enum Language {
    Rust,
    Python,
    JavaScript,
    Jsx,
    Svelte,
    TypeScript,
    Tsx,
}

/// The key that names a language's cache files.
pub open spec fn cache_key_of(language: Language) -> Seq<char> {
    match language {
        Language::Rust => "rust"@,
        Language::Python => "python"@,
        Language::JavaScript => "javascript"@,
        Language::Jsx => "jsx"@,
        Language::Svelte => "svelte"@,
        Language::TypeScript => "typescript"@,
        Language::Tsx => "tsx"@,
    }
}

/// The name a language is shown under.
pub open spec fn display_name_of(language: Language) -> Seq<char> {
    match language {
        Language::Rust => "Rust"@,
        Language::Python => "Python"@,
        Language::JavaScript => "JavaScript"@,
        Language::Jsx => "JSX"@,
        Language::Svelte => "Svelte"@,
        Language::TypeScript => "TypeScript"@,
        Language::Tsx => "TSX"@,
    }
}

/// The position of a language in declaration order (the order `Ord` gives).
pub open spec fn rank_of(language: Language) -> nat {
    match language {
        Language::Rust => 0,
        Language::Python => 1,
        Language::JavaScript => 2,
        Language::Jsx => 3,
        Language::Svelte => 4,
        Language::TypeScript => 5,
        Language::Tsx => 6,
    }
}

/// Every language, in declaration order.
pub open spec fn all_languages() -> Seq<Language> {
    seq![
        Language::Rust,
        Language::Python,
        Language::JavaScript,
        Language::Jsx,
        Language::Svelte,
        Language::TypeScript,
        Language::Tsx,
    ]
}

impl Language {
    /// Every language, in declaration order.
    pub fn all() -> (res: Vec<Language>)
        ensures
            res@ == all_languages(),
    {
        let res = vec![
            Language::Rust,
            Language::Python,
            Language::JavaScript,
            Language::Jsx,
            Language::Svelte,
            Language::TypeScript,
            Language::Tsx,
        ];
        assert(res@ =~= all_languages());
        res
    }

    pub fn cache_key(self) -> (res: &'static str)
        ensures
            res@ == cache_key_of(self),
    {
        match self {
            Self::Rust => "rust",
            Self::Python => "python",
            Self::JavaScript => "javascript",
            Self::Jsx => "jsx",
            Self::Svelte => "svelte",
            Self::TypeScript => "typescript",
            Self::Tsx => "tsx",
        }
    }

    pub fn display_name(self) -> (res: &'static str)
        ensures
            res@ == display_name_of(self),
    {
        match self {
            Self::Rust => "Rust",
            Self::Python => "Python",
            Self::JavaScript => "JavaScript",
            Self::Jsx => "JSX",
            Self::Svelte => "Svelte",
            Self::TypeScript => "TypeScript",
            Self::Tsx => "TSX",
        }
    }

    /// The position of the language in declaration order.
    pub fn rank(self) -> (res: u8)
        ensures
            res == rank_of(self),
    {
        match self {
            Self::Rust => 0,
            Self::Python => 1,
            Self::JavaScript => 2,
            Self::Jsx => 3,
            Self::Svelte => 4,
            Self::TypeScript => 5,
            Self::Tsx => 6,
        }
    }
}

/// A call graph: function nodes, call edges between them, and the places
/// where a function is referenced without being called.
pub struct CallGraph {
    pub nodes: Vec<GraphNode>,
    pub edges: Vec<GraphEdge>,
    pub references: Vec<GraphReference>,
}

pub struct GraphNode {
    pub id: usize,
    pub name: String,
    pub qualified_name: String,
    pub language: Language,
    pub file: String,
    pub is_test: bool,
    pub line: usize,
    pub end_line: usize,
}

pub struct GraphEdge {
    pub caller: usize,
    pub callee: usize,
    pub conditions: Vec<String>,
}

#[derive(Debug, Clone, Copy, PartialEq, Eq, Structural, Hash)]
pub enum GraphReferenceKind {
    Argument,
}

pub struct GraphReference {
    pub referencer: usize,
    pub target: usize,
    pub kind: GraphReferenceKind,
    pub context: Option<String>,
}

pub struct FnDef {
    pub name: String,
    pub qualified_name: String,
    pub language: Language,
    pub file: String,
    pub is_test: bool,
    pub line: usize,
    pub end_line: usize,
}

pub struct CodePath {
    pub chain: Vec<FnDef>,
}

pub struct CodePathsResult {
    pub paths: Vec<CodePath>,
    pub fn_defs: Vec<FnDef>,
}

pub struct CallSite {
    pub callee_name: String,
    pub conditions: Vec<String>,
}

pub struct ReferenceSite {
    pub target_name: String,
    pub kind: GraphReferenceKind,
    pub context: Option<String>,
}

pub struct FunctionArtifact {
    pub name: String,
    pub qualified_name: String,
    pub language: Language,
    pub is_test: bool,
    pub line: usize,
    pub end_line: usize,
    pub call_sites: Vec<CallSite>,
    pub reference_sites: Vec<ReferenceSite>,
}

pub struct FileArtifact {
    pub source_hash: String,
    pub functions: Vec<FunctionArtifact>,
}

/// The call and reference sites of the function at `caller_idx`.
pub struct FnCalls {
    pub caller_idx: usize,
    pub call_sites: Vec<CallSite>,
    pub reference_sites: Vec<ReferenceSite>,
}

// ---------------------------------------------------------------------
// Views: the same data with strings as character sequences
// ---------------------------------------------------------------------

pub open spec fn strings_view(v: Seq<String>) -> Seq<Seq<char>> {
    v.map_values(|s: String| s@)
}

pub proof fn lemma_strings_view_push(s: Seq<String>, x: String)
    ensures
        strings_view(s.push(x)) == strings_view(s).push(x@),
{
    assert(strings_view(s.push(x)) =~= strings_view(s).push(x@));
}

pub open spec fn opt_string_view(v: Option<String>) -> Option<Seq<char>> {
    match v {
        Some(s) => Some(s@),
        None => None,
    }
}

#[verifier::ext_equal]
pub struct GraphNodeV {
    pub id: usize,
    pub name: Seq<char>,
    pub qualified_name: Seq<char>,
    pub language: Language,
    pub file: Seq<char>,
    pub is_test: bool,
    pub line: usize,
    pub end_line: usize,
}

#[verifier::ext_equal]
pub struct GraphEdgeV {
    pub caller: usize,
    pub callee: usize,
    pub conditions: Seq<Seq<char>>,
}

#[verifier::ext_equal]
pub struct GraphReferenceV {
    pub referencer: usize,
    pub target: usize,
    pub kind: GraphReferenceKind,
    pub context: Option<Seq<char>>,
}

#[verifier::ext_equal]
pub struct CallGraphV {
    pub nodes: Seq<GraphNodeV>,
    pub edges: Seq<GraphEdgeV>,
    pub references: Seq<GraphReferenceV>,
}

#[verifier::ext_equal]
pub struct FnDefV {
    pub name: Seq<char>,
    pub qualified_name: Seq<char>,
    pub language: Language,
    pub file: Seq<char>,
    pub is_test: bool,
    pub line: usize,
    pub end_line: usize,
}

#[verifier::ext_equal]
pub struct CallSiteV {
    pub callee_name: Seq<char>,
    pub conditions: Seq<Seq<char>>,
}

#[verifier::ext_equal]
pub struct ReferenceSiteV {
    pub target_name: Seq<char>,
    pub kind: GraphReferenceKind,
    pub context: Option<Seq<char>>,
}

#[verifier::ext_equal]
pub struct FunctionArtifactV {
    pub name: Seq<char>,
    pub qualified_name: Seq<char>,
    pub language: Language,
    pub is_test: bool,
    pub line: usize,
    pub end_line: usize,
    pub call_sites: Seq<CallSiteV>,
    pub reference_sites: Seq<ReferenceSiteV>,
}

#[verifier::ext_equal]
pub struct FileArtifactV {
    pub source_hash: Seq<char>,
    pub functions: Seq<FunctionArtifactV>,
}

/// Every function of `fs` belongs to `language`.
pub open spec fn all_of_language(fs: Seq<FunctionArtifactV>, language: Language) -> bool {
    forall|i: int| 0 <= i < fs.len() ==> (#[trigger] fs[i]).language == language
}

#[verifier::ext_equal]
pub struct FnCallsV {
    pub caller_idx: usize,
    pub call_sites: Seq<CallSiteV>,
    pub reference_sites: Seq<ReferenceSiteV>,
}

impl View for GraphNode {
    type V = GraphNodeV;

    open spec fn view(&self) -> GraphNodeV {
        GraphNodeV {
            id: self.id,
            name: self.name@,
            qualified_name: self.qualified_name@,
            language: self.language,
            file: self.file@,
            is_test: self.is_test,
            line: self.line,
            end_line: self.end_line,
        }
    }
}

impl View for GraphEdge {
    type V = GraphEdgeV;

    open spec fn view(&self) -> GraphEdgeV {
        GraphEdgeV { caller: self.caller, callee: self.callee, conditions: strings_view(self.conditions@) }
    }
}

impl View for GraphReference {
    type V = GraphReferenceV;

    open spec fn view(&self) -> GraphReferenceV {
        GraphReferenceV {
            referencer: self.referencer,
            target: self.target,
            kind: self.kind,
            context: opt_string_view(self.context),
        }
    }
}

impl View for CallGraph {
    type V = CallGraphV;

    open spec fn view(&self) -> CallGraphV {
        CallGraphV {
            nodes: self.nodes@.map_values(|n: GraphNode| n@),
            edges: self.edges@.map_values(|e: GraphEdge| e@),
            references: self.references@.map_values(|r: GraphReference| r@),
        }
    }
}

impl View for FnDef {
    type V = FnDefV;

    open spec fn view(&self) -> FnDefV {
        FnDefV {
            name: self.name@,
            qualified_name: self.qualified_name@,
            language: self.language,
            file: self.file@,
            is_test: self.is_test,
            line: self.line,
            end_line: self.end_line,
        }
    }
}

impl View for CallSite {
    type V = CallSiteV;

    open spec fn view(&self) -> CallSiteV {
        CallSiteV { callee_name: self.callee_name@, conditions: strings_view(self.conditions@) }
    }
}

impl View for ReferenceSite {
    type V = ReferenceSiteV;

    open spec fn view(&self) -> ReferenceSiteV {
        ReferenceSiteV {
            target_name: self.target_name@,
            kind: self.kind,
            context: opt_string_view(self.context),
        }
    }
}

impl View for FunctionArtifact {
    type V = FunctionArtifactV;

    open spec fn view(&self) -> FunctionArtifactV {
        FunctionArtifactV {
            name: self.name@,
            qualified_name: self.qualified_name@,
            language: self.language,
            is_test: self.is_test,
            line: self.line,
            end_line: self.end_line,
            call_sites: self.call_sites@.map_values(|c: CallSite| c@),
            reference_sites: self.reference_sites@.map_values(|r: ReferenceSite| r@),
        }
    }
}

impl View for FileArtifact {
    type V = FileArtifactV;

    open spec fn view(&self) -> FileArtifactV {
        FileArtifactV {
            source_hash: self.source_hash@,
            functions: self.functions@.map_values(|f: FunctionArtifact| f@),
        }
    }
}

impl View for FnCalls {
    type V = FnCallsV;

    open spec fn view(&self) -> FnCallsV {
        FnCallsV {
            caller_idx: self.caller_idx,
            call_sites: self.call_sites@.map_values(|c: CallSite| c@),
            reference_sites: self.reference_sites@.map_values(|r: ReferenceSite| r@),
        }
    }
}

// ---------------------------------------------------------------------
// Copies that keep every field
// ---------------------------------------------------------------------

/// A copy of a list of strings.
pub fn clone_strings(v: &Vec<String>) -> (res: Vec<String>)
    ensures
        strings_view(res@) == strings_view(v@),
{
    let mut res: Vec<String> = Vec::new();
    let mut i: usize = 0;
    while i < v.len()
        invariant
            i <= v@.len(),
            strings_view(res@) == strings_view(v@.take(i as int)),
        decreases v@.len() - i,
    {
        let c = v[i].clone();
        assert(c == v@[i as int]);
        let ghost before = res@;
        res.push(c);
        assert(res@ == before.push(v@[i as int]));
        assert(v@.take(i + 1) =~= v@.take(i as int).push(v@[i as int]));
        proof {
            lemma_strings_view_push(before, c);
            lemma_strings_view_push(v@.take(i as int), v@[i as int]);
        }
        i = i + 1;
        assert(strings_view(res@) =~= strings_view(v@.take(i as int)));
    }
    assert(v@.take(v@.len() as int) =~= v@);
    res
}

/// A copy of an optional string.
pub fn clone_opt_string(v: &Option<String>) -> (res: Option<String>)
    ensures
        res == *v,
{
    match v {
        Some(s) => Some(s.clone()),
        None => None,
    }
}

impl Clone for GraphNode {
    fn clone(&self) -> (res: Self)
        ensures
            res == *self,
    {
        GraphNode {
            id: self.id,
            name: self.name.clone(),
            qualified_name: self.qualified_name.clone(),
            language: self.language,
            file: self.file.clone(),
            is_test: self.is_test,
            line: self.line,
            end_line: self.end_line,
        }
    }
}

impl Clone for GraphEdge {
    fn clone(&self) -> (res: Self)
        ensures
            res@ == self@,
    {
        GraphEdge { caller: self.caller, callee: self.callee, conditions: clone_strings(&self.conditions) }
    }
}

impl Clone for GraphReference {
    fn clone(&self) -> (res: Self)
        ensures
            res == *self,
    {
        GraphReference {
            referencer: self.referencer,
            target: self.target,
            kind: self.kind,
            context: clone_opt_string(&self.context),
        }
    }
}

impl Clone for FnDef {
    fn clone(&self) -> (res: Self)
        ensures
            res == *self,
    {
        FnDef {
            name: self.name.clone(),
            qualified_name: self.qualified_name.clone(),
            language: self.language,
            file: self.file.clone(),
            is_test: self.is_test,
            line: self.line,
            end_line: self.end_line,
        }
    }
}

impl Clone for CallSite {
    fn clone(&self) -> (res: Self)
        ensures
            res@ == self@,
    {
        CallSite { callee_name: self.callee_name.clone(), conditions: clone_strings(&self.conditions) }
    }
}

impl Clone for ReferenceSite {
    fn clone(&self) -> (res: Self)
        ensures
            res == *self,
    {
        ReferenceSite {
            target_name: self.target_name.clone(),
            kind: self.kind,
            context: clone_opt_string(&self.context),
        }
    }
}

} // verus!
