use vstd::prelude::*;

verus! {

/// Settings for loading a `Graph`: the repository, and whether test files
/// are part of the graph.
pub struct GraphBuilder {
    repo_path: String,
    include_tests: bool,
}

impl GraphBuilder {
    /// The repository the graph is loaded from.
    pub closed spec fn spec_repo_path(&self) -> Seq<char> {
        self.repo_path@
    }

    /// Whether test files are part of the graph.
    pub closed spec fn spec_include_tests(&self) -> bool {
        self.include_tests
    }

    /// Settings for the repository at `path`, test files left out.
    pub fn new(path: String) -> (res: Self)
        ensures
            res.spec_repo_path() == path@,
            !res.spec_include_tests(),
    {
        GraphBuilder { repo_path: path, include_tests: false }
    }

    /// Include test files in the call graph (default: `false`).
    pub fn include_tests(self, enabled: bool) -> (res: Self)
        ensures
            res.spec_repo_path() == self.spec_repo_path(),
            res.spec_include_tests() == enabled,
    {
        GraphBuilder { repo_path: self.repo_path, include_tests: enabled }
    }

    /// The repository the graph is loaded from.
    pub fn repo_path(&self) -> (res: &str)
        ensures
            res@ == self.spec_repo_path(),
    {
        self.repo_path.as_str()
    }

    /// Whether test files are part of the graph.
    pub fn includes_tests(&self) -> (res: bool)
        ensures
            res == self.spec_include_tests(),
    {
        self.include_tests
    }
}

} // verus!
