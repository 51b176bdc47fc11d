use vstd::prelude::*;
use crate::graph_cache::LoadGraphMode;
use crate::text::concat;

verus! {

/// What `build-index` is asked to do.
pub struct BuildIndexOptions<'a> {
    pub repo: &'a str,
    pub include_tests: bool,
}

/// The word for how the index came to be.
pub open spec fn index_verb(mode: LoadGraphMode) -> Seq<char> {
    match mode {
        LoadGraphMode::FullRebuild => "Built index"@,
        LoadGraphMode::Incremental => "Updated index"@,
        LoadGraphMode::Reused => "Index already up to date"@,
    }
}

/// The line `build-index` prints for a repository once its index is ready.
pub fn index_message(mode: LoadGraphMode, repo_display: &str) -> (res: String)
    ensures
        res@ == index_verb(mode) + " for "@ + repo_display@,
{
    let verb = match mode {
        LoadGraphMode::FullRebuild => "Built index",
        LoadGraphMode::Incremental => "Updated index",
        LoadGraphMode::Reused => "Index already up to date",
    };
    let head = concat(verb, " for ");
    concat(head.as_str(), repo_display)
}

} // verus!
