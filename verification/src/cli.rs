use vstd::prelude::*;
use crate::text::{owned, str_eq, str_contains, seq_contains, seq_starts_with, str_starts_with, concat, push_str,
    joined, join, empty_string};
use crate::analysis::codepaths::types::{strings_view, clone_strings, lemma_strings_view_push};

verus! {

/// The command line after its flags were read: what to do and how.
pub struct Cli {
    pub build_index: bool,
    pub generate: Option<String>,
    pub install_completions: Option<String>,
    pub json: bool,
    pub compact: bool,
    pub repo: String,
    pub search_paths: Vec<String>,
    pub depth: usize,
    pub max_context: usize,
    pub include_tests: bool,
    pub include_test_callers: bool,
    pub pattern: String,
    pub rg_args: Vec<String>,
}

/// The flags as the argument parser read them, and the other arguments.
pub struct RawArgs {
    pub build_index: bool,
    pub generate: Option<String>,
    pub install_completions: Option<String>,
    pub json: bool,
    pub compact: bool,
    pub include_tests: bool,
    pub include_test_callers: bool,
    pub depth: usize,
    pub max_context: usize,
    pub raw_args: Vec<String>,
}

/// The error for flags that cannot go together, if any.
pub open spec fn flags_error(r: RawArgs) -> Option<Seq<char>> {
    if r.json && r.compact {
        Some("--compact cannot be used together with --json"@)
    } else if r.build_index && (r.json || r.compact || r.include_test_callers) {
        Some("--build-index cannot be used with --json, --compact, or --include-test-callers"@)
    } else if r.generate is Some && r.install_completions is Some {
        Some("--generate cannot be used together with --install-completions"@)
    } else if r.generate is Some && (r.json || r.compact || r.include_tests || r.include_test_callers || r.build_index
        || r.raw_args@.len() > 0) {
        Some("--generate cannot be combined with query flags or positional arguments"@)
    } else if r.generate is None && r.install_completions is Some && (r.json || r.compact || r.include_tests
        || r.include_test_callers || r.build_index || r.raw_args@.len() > 0) {
        Some("--install-completions cannot be combined with query flags or positional arguments"@)
    } else if r.generate is None && r.install_completions is None && r.build_index
        && (exists|i: int| 0 <= i < r.raw_args@.len() && seq_starts_with(#[trigger] r.raw_args@[i]@, "-"@)) {
        Some("--build-index accepts only optional path arguments"@)
    } else {
        None
    }
}

/// What the command line asks for, before paths are resolved.
pub enum CliPlan {
    /// Done: no path to resolve.
    Ready(Cli),
    /// The repository and the search paths follow from these paths; for a
    /// rebuild of the index, only the repository.
    ResolvePaths(Cli, Vec<String>),
}

/// Whether a search argument names a path: it exists, is `.` or `..`, or
/// holds a `/`.
pub open spec fn path_like(value: Seq<char>, present: bool) -> bool {
    present || value == "."@ || value == ".."@ || seq_contains(value, "/"@)
}

pub fn looks_like_path(value: &str, present: bool) -> (res: bool)
    ensures
        res == path_like(value@, present),
{
    present || str_eq(value, ".") || str_eq(value, "..") || str_contains(value, "/")
}

/// The search arguments split into what goes to ripgrep, the pattern, and
/// the paths after it.
pub struct ParsedPassthrough {
    pub pattern: String,
    pub search_paths: Vec<String>,
    pub rg_args: Vec<String>,
}

/// How many arguments at the end name paths, leaving one for the pattern.
pub open spec fn trailing_paths(args: Seq<Seq<char>>, present: Seq<bool>, k: nat) -> nat
    decreases k,
{
    if k == 0 || k > args.len() || !path_like(args[k - 1], present[k - 1]) {
        0
    } else {
        1 + trailing_paths(args, present, (k - 1) as nat)
    }
}

/// Where the pattern stands among the arguments.
pub open spec fn pattern_index(args: Seq<Seq<char>>, present: Seq<bool>) -> int {
    let t = trailing_paths(args, present, args.len());
    let t = if t < args.len() - 1 { t as int } else { args.len() - 1 };
    args.len() - 1 - t
}

proof fn lemma_trailing_paths_bounded(args: Seq<Seq<char>>, present: Seq<bool>, k: nat)
    ensures
        trailing_paths(args, present, k) <= k,
    decreases k,
{
    if k > 0 && k <= args.len() {
        lemma_trailing_paths_bounded(args, present, (k - 1) as nat);
    }
}

/// The arguments counted by `trailing_paths` all name paths.
proof fn lemma_trailing_paths_like(args: Seq<Seq<char>>, present: Seq<bool>, k: nat)
    requires
        k <= args.len(),
        present.len() == args.len(),
    ensures
        forall|j: int| k - trailing_paths(args, present, k) <= j < k ==> path_like(#[trigger] args[j], present[j]),
    decreases k,
{
    if k > 0 && path_like(args[k - 1], present[k - 1]) {
        lemma_trailing_paths_like(args, present, (k - 1) as nat);
    }
}

/// Law: splitting the search arguments loses and reorders nothing: the
/// arguments for ripgrep, then the pattern, then the paths give back the
/// arguments as they came, and every argument taken as a path names one.
pub proof fn law_passthrough_splits(sv: Seq<Seq<char>>, present: Seq<bool>, allow_dash_pattern: bool)
    requires
        present.len() == sv.len(),
    ensures
        passthrough_spec(sv, present, allow_dash_pattern) matches Ok((pattern, paths, rg_args))
            ==> rg_args.push(pattern) + paths == sv
                && forall|j: int| sv.len() - paths.len() <= j < sv.len() ==> path_like(#[trigger] sv[j], present[j]),
{
    if sv.len() > 0 {
        lemma_trailing_paths_bounded(sv, present, sv.len());
        lemma_trailing_paths_like(sv, present, sv.len());
        let p = pattern_index(sv, present);
        assert(0 <= p < sv.len());
        if let Ok((pattern, paths, rg_args)) = passthrough_spec(sv, present, allow_dash_pattern) {
            assert(rg_args.push(pattern) + paths =~= sv);
        }
    }
}

/// The pattern, the paths and ripgrep's arguments among the search
/// arguments, or the error for them.
pub open spec fn passthrough_spec(sv: Seq<Seq<char>>, present: Seq<bool>, allow_dash_pattern: bool)
    -> Result<(Seq<char>, Seq<Seq<char>>, Seq<Seq<char>>), Seq<char>>
{
    if sv.len() == 0 {
        Err("missing pattern"@)
    } else {
        let p = pattern_index(sv, present);
        if seq_starts_with(sv[p], "-"@) && !allow_dash_pattern {
            Err("missing pattern (use -- before patterns that start with -)"@)
        } else {
            Ok((sv[p], sv.skip(p + 1), sv.take(p)))
        }
    }
}

/// Splits the search arguments: the last ones that name paths are the
/// paths, the one before them the pattern, and what comes first goes to
/// ripgrep. `present` tells, for each argument, whether a file or directory
/// of that name exists.
pub fn parse_passthrough(args: &Vec<String>, allow_dash_pattern: bool, present: &Vec<bool>)
    -> (res: Result<ParsedPassthrough, String>)
    requires
        present@.len() == args@.len(),
    ensures
        args@.len() == 0 ==> (res matches Err(e) && e@ == "missing pattern"@),
        args@.len() > 0 ==> {
            let sv = strings_view(args@);
            let p = pattern_index(sv, present@);
            if seq_starts_with(sv[p], "-"@) && !allow_dash_pattern {
                (res matches Err(e) && e@ == "missing pattern (use -- before patterns that start with -)"@)
            } else {
                (res matches Ok(parsed) && parsed.pattern@ == sv[p]
                    && strings_view(parsed.search_paths@) == sv.skip(p + 1)
                    && strings_view(parsed.rg_args@) == sv.take(p))
            }
        },
{
    if args.len() == 0 {
        return Err(owned("missing pattern"));
    }
    let ghost sv = strings_view(args@);
    let n = args.len();
    let mut t: usize = 0;
    while t < n && looks_like_path(args[n - 1 - t].as_str(), present[n - 1 - t])
        invariant
            n == args@.len(),
            present@.len() == n,
            sv == strings_view(args@),
            t <= n,
            trailing_paths(sv, present@, n as nat) == t + trailing_paths(sv, present@, (n - t) as nat),
        decreases n - t,
    {
        assert(sv[n - 1 - t] == args@[n - 1 - t]@);
        t = t + 1;
    }
    proof {
        if t < n {
            assert(sv[n - 1 - t] == args@[n - 1 - t]@);
            assert(trailing_paths(sv, present@, (n - t) as nat) == 0);
        }
    }
    let t = if t < n - 1 { t } else { n - 1 };
    let pattern_idx = n - t - 1;
    assert(pattern_idx == pattern_index(sv, present@));
    let pattern = args[pattern_idx].clone();
    assert(pattern@ == sv[pattern_idx as int]);
    if str_starts_with(pattern.as_str(), "-") && !allow_dash_pattern {
        return Err(owned("missing pattern (use -- before patterns that start with -)"));
    }
    let mut rg_args: Vec<String> = Vec::new();
    let mut search_paths: Vec<String> = Vec::new();
    let mut i: usize = 0;
    while i < n
        invariant
            n == args@.len(),
            sv == strings_view(args@),
            pattern_idx < n,
            i <= n,
            strings_view(rg_args@) == sv.take(if i < pattern_idx { i as int } else { pattern_idx as int }),
            strings_view(search_paths@) == if i <= pattern_idx + 1 {
                Seq::<Seq<char>>::empty()
            } else {
                sv.subrange(pattern_idx + 1, i as int)
            },
        decreases n - i,
    {
        let a = args[i].clone();
        assert(a@ == sv[i as int]);
        if i < pattern_idx {
            let ghost prev = rg_args@;
            rg_args.push(a);
            assert(strings_view(rg_args@) =~= strings_view(prev).push(a@));
            assert(sv.take(i + 1) =~= sv.take(i as int).push(sv[i as int]));
        } else if i > pattern_idx {
            let ghost prev = search_paths@;
            search_paths.push(a);
            assert(strings_view(search_paths@) =~= strings_view(prev).push(a@));
            assert(sv.subrange(pattern_idx + 1, i + 1) =~= (if i <= pattern_idx + 1 {
                Seq::<Seq<char>>::empty()
            } else {
                sv.subrange(pattern_idx + 1, i as int)
            }).push(sv[i as int]));
        }
        i = i + 1;
    }
    assert(sv.skip(pattern_idx + 1) =~= if n <= pattern_idx + 1 {
        Seq::<Seq<char>>::empty()
    } else {
        sv.subrange(pattern_idx + 1, n as int)
    });
    Ok(ParsedPassthrough { pattern, search_paths, rg_args })
}

/// Whether some argument starts with `-`.
fn any_dashed(args: &Vec<String>) -> (res: bool)
    ensures
        res == exists|i: int| 0 <= i < args@.len() && seq_starts_with(#[trigger] args@[i]@, "-"@),
{
    let mut i: usize = 0;
    while i < args.len()
        invariant
            i <= args@.len(),
            forall|j: int| 0 <= j < i ==> !seq_starts_with(#[trigger] args@[j]@, "-"@),
        decreases args@.len() - i,
    {
        if str_starts_with(args[i].as_str(), "-") {
            return true;
        }
        i = i + 1;
    }
    false
}

impl Cli {
    /// What the command line asks for: an error for flags that cannot go
    /// together; otherwise the settings, and for a query or an index
    /// rebuild the paths from which the repository follows. `present`
    /// tells, for each argument, whether a file or directory of that name
    /// exists; `allow_dash_pattern` whether `--` was given.
    pub fn from_raw(raw: RawArgs, allow_dash_pattern: bool, present: &Vec<bool>) -> (res: Result<CliPlan, String>)
        requires
            present@.len() == raw.raw_args@.len(),
        ensures
            flags_error(raw) matches Some(e) ==> (res matches Err(m) && m@ == e),
            flags_error(raw) is None && (raw.generate is Some || raw.install_completions is Some) ==> (res matches Ok(
                CliPlan::Ready(cli)) && cli.repo@ == "."@),
            flags_error(raw) is None && raw.generate is None && raw.install_completions is None && raw.build_index ==> (
                if raw.raw_args@.len() == 0 {
                    res matches Ok(CliPlan::Ready(cli)) && cli.repo@ == "."@
                } else {
                    res matches Ok(CliPlan::ResolvePaths(cli, paths)) && strings_view(paths@) == strings_view(raw.raw_args@)
                }),
            flags_error(raw) is None && raw.generate is None && raw.install_completions is None && !raw.build_index ==> (
                match passthrough_spec(strings_view(raw.raw_args@), present@, allow_dash_pattern) {
                    Err(e) => res matches Err(m) && m@ == e,
                    Ok((pattern, paths, rg_args)) => match res {
                        Ok(CliPlan::Ready(cli)) => paths.len() == 0 && cli.pattern@ == pattern
                            && strings_view(cli.rg_args@) == rg_args,
                        Ok(CliPlan::ResolvePaths(cli, p)) => paths.len() > 0 && cli.pattern@ == pattern
                            && strings_view(cli.rg_args@) == rg_args && strings_view(p@) == paths,
                        Err(_) => false,
                    },
                }),
    {
        let err: Option<&str> = if raw.json && raw.compact {
            Some("--compact cannot be used together with --json")
        } else if raw.build_index && (raw.json || raw.compact || raw.include_test_callers) {
            Some("--build-index cannot be used with --json, --compact, or --include-test-callers")
        } else if raw.generate.is_some() && raw.install_completions.is_some() {
            Some("--generate cannot be used together with --install-completions")
        } else if raw.generate.is_some() && (raw.json || raw.compact || raw.include_tests || raw.include_test_callers
            || raw.build_index || raw.raw_args.len() > 0) {
            Some("--generate cannot be combined with query flags or positional arguments")
        } else if raw.generate.is_none() && raw.install_completions.is_some() && (raw.json || raw.compact
            || raw.include_tests || raw.include_test_callers || raw.build_index || raw.raw_args.len() > 0) {
            Some("--install-completions cannot be combined with query flags or positional arguments")
        } else if raw.generate.is_none() && raw.install_completions.is_none() && raw.build_index
            && any_dashed(&raw.raw_args) {
            Some("--build-index accepts only optional path arguments")
        } else {
            None
        };
        if let Some(message) = err {
            return Err(owned(message));
        }
        let standalone = raw.generate.is_some() || raw.install_completions.is_some();
        let build_index = raw.build_index;
        let no_args = raw.raw_args.len() == 0;
        let raw_args = clone_strings(&raw.raw_args);
        assert(raw_args@.len() == raw.raw_args@.len()) by {
            assert(strings_view(raw_args@).len() == strings_view(raw.raw_args@).len());
        }
        let cli = Cli {
            build_index: raw.build_index,
            generate: raw.generate,
            install_completions: raw.install_completions,
            json: raw.json,
            compact: raw.compact,
            repo: owned("."),
            search_paths: Vec::new(),
            depth: raw.depth,
            max_context: raw.max_context,
            include_tests: raw.include_tests,
            include_test_callers: raw.include_test_callers,
            pattern: empty_string(),
            rg_args: Vec::new(),
        };
        if standalone {
            return Ok(CliPlan::Ready(cli));
        }
        if build_index {
            if no_args {
                return Ok(CliPlan::Ready(cli));
            }
            return Ok(CliPlan::ResolvePaths(cli, raw_args));
        }
        match parse_passthrough(&raw_args, allow_dash_pattern, present) {
            Err(e) => Err(e),
            Ok(parsed) => {
                let mut cli = cli;
                cli.pattern = parsed.pattern;
                cli.rg_args = parsed.rg_args;
                if parsed.search_paths.len() == 0 {
                    Ok(CliPlan::Ready(cli))
                } else {
                    Ok(CliPlan::ResolvePaths(cli, parsed.search_paths))
                }
            },
        }
    }
}

// ---------------------------------------------------------------------
// Paths as lists of components
// ---------------------------------------------------------------------

/// The parent of a path given by its components (`/` first for an
/// absolute path): none for the root or the empty path.
pub open spec fn parent_of_components(p: Seq<Seq<char>>) -> Option<Seq<Seq<char>>> {
    if p.len() == 0 || (p.len() == 1 && p[0] == "/"@) { None } else { Some(p.drop_last()) }
}

/// The deepest path that each path lies under, found by walking up from
/// the first; none for no paths, or when the walk leaves the root.
pub open spec fn ancestor_from(paths: Seq<Seq<Seq<char>>>, anc: Seq<Seq<char>>, i: int) -> Option<Seq<Seq<char>>>
    decreases paths.len() - i, anc.len(),
{
    if i < 1 || i >= paths.len() {
        Some(anc)
    } else if anc.is_prefix_of(paths[i]) {
        ancestor_from(paths, anc, i + 1)
    } else {
        match parent_of_components(anc) {
            Some(up) => ancestor_from(paths, up, i),
            None => None,
        }
    }
}

pub open spec fn common_ancestor_of(paths: Seq<Seq<Seq<char>>>) -> Option<Seq<Seq<char>>> {
    if paths.len() == 0 { None } else { ancestor_from(paths, paths[0], 1) }
}

pub open spec fn paths_view(ps: Seq<Vec<String>>) -> Seq<Seq<Seq<char>>> {
    ps.map_values(|p: Vec<String>| strings_view(p@))
}

/// Whether `p` starts with the components of `prefix`.
fn components_start_with(p: &Vec<String>, prefix: &Vec<String>) -> (res: bool)
    ensures
        res == strings_view(prefix@).is_prefix_of(strings_view(p@)),
{
    if prefix.len() > p.len() {
        return false;
    }
    let mut i: usize = 0;
    while i < prefix.len()
        invariant
            prefix@.len() <= p@.len(),
            i <= prefix@.len(),
            forall|j: int| 0 <= j < i ==> p@[j]@ == prefix@[j]@,
        decreases prefix@.len() - i,
    {
        if !str_eq(p[i].as_str(), prefix[i].as_str()) {
            assert(strings_view(p@)[i as int] != strings_view(prefix@)[i as int]);
            return false;
        }
        i = i + 1;
    }
    assert(strings_view(p@).subrange(0, prefix@.len() as int) =~= strings_view(prefix@));
    true
}

/// The deepest common ancestor of some paths, given by their components.
pub fn common_ancestor(paths: &Vec<Vec<String>>) -> (res: Option<Vec<String>>)
    ensures
        match res {
            Some(a) => common_ancestor_of(paths_view(paths@)) == Some(strings_view(a@)),
            None => common_ancestor_of(paths_view(paths@)) is None,
        },
{
    let ghost pv = paths_view(paths@);
    if paths.len() == 0 {
        return None;
    }
    let mut ancestor = clone_strings(&paths[0]);
    assert(strings_view(ancestor@) == pv[0]);
    let mut i: usize = 1;
    while i < paths.len()
        invariant
            pv == paths_view(paths@),
            1 <= i <= paths@.len(),
            ancestor_from(pv, strings_view(ancestor@), i as int) == common_ancestor_of(pv),
        decreases paths@.len() - i, ancestor@.len(),
    {
        assert(pv[i as int] == strings_view(paths@[i as int]@));
        if components_start_with(&paths[i], &ancestor) {
            i = i + 1;
        } else {
            let n = ancestor.len();
            let root = n == 1 && str_eq(ancestor[0].as_str(), "/");
            if n == 0 || root {
                assert(strings_view(ancestor@).len() == 0 || strings_view(ancestor@)[0] == ancestor@[0]@);
                return None;
            }
            let ghost before = strings_view(ancestor@);
            ancestor.pop();
            assert(strings_view(ancestor@) =~= before.drop_last());
        }
    }
    Some(ancestor)
}

// ---------------------------------------------------------------------
// The repository of the positional paths
// ---------------------------------------------------------------------

/// The git roots that were found, in order.
pub open spec fn found_roots(roots: Seq<Option<Seq<Seq<char>>>>) -> Seq<Seq<Seq<char>>>
    decreases roots.len(),
{
    if roots.len() == 0 {
        Seq::empty()
    } else {
        match roots.last() {
            Some(r) => found_roots(roots.drop_last()).push(r),
            None => found_roots(roots.drop_last()),
        }
    }
}

pub open spec fn roots_view(roots: Seq<Option<Vec<String>>>) -> Seq<Option<Seq<Seq<char>>>> {
    roots.map_values(|r: Option<Vec<String>>| match r {
        Some(v) => Some(strings_view(v@)),
        None => None,
    })
}

/// The repository that positional paths belong to: the git root they all
/// share when git found one; an error when git found different ones; and
/// without git the deepest directory that holds them all.
pub open spec fn repo_root_spec(roots: Seq<Option<Seq<Seq<char>>>>, bases: Seq<Seq<Seq<char>>>)
    -> Result<Seq<Seq<char>>, Seq<char>>
{
    let found = found_roots(roots);
    if found.len() > 0 {
        if forall|k: int| 0 <= k < found.len() ==> #[trigger] found[k] == found[0] {
            Ok(found[0])
        } else {
            Err("positional paths must belong to the same git repository"@)
        }
    } else {
        match common_ancestor_of(bases) {
            Some(a) => Ok(a),
            None => Err("failed to determine a common root for positional paths"@),
        }
    }
}

/// Whether two paths have the same components.
fn same_components(a: &Vec<String>, b: &Vec<String>) -> (res: bool)
    ensures
        res == (strings_view(a@) == strings_view(b@)),
{
    if a.len() != b.len() {
        proof {
            if strings_view(a@) == strings_view(b@) {
                assert(strings_view(a@).len() == strings_view(b@).len());
            }
        }
        return false;
    }
    let r = components_start_with(a, b);
    proof {
        if r {
            assert(strings_view(a@) =~= strings_view(b@));
        }
    }
    r
}

/// The repository that positional paths belong to, given the git root of
/// each (none where git found none) and the directory of each.
pub fn infer_repo_root(git_roots: &Vec<Option<Vec<String>>>, bases: &Vec<Vec<String>>)
    -> (res: Result<Vec<String>, String>)
    ensures
        match res {
            Ok(r) => repo_root_spec(roots_view(git_roots@), paths_view(bases@)) == Ok::<Seq<Seq<char>>, Seq<char>>(strings_view(r@)),
            Err(e) => repo_root_spec(roots_view(git_roots@), paths_view(bases@)) == Err::<Seq<Seq<char>>, Seq<char>>(e@),
        },
{
    let ghost rv = roots_view(git_roots@);
    let mut first: Option<usize> = None;
    let mut all_same = true;
    let mut i: usize = 0;
    while i < git_roots.len()
        invariant
            i <= git_roots@.len(),
            rv == roots_view(git_roots@),
            first is None <==> found_roots(rv.take(i as int)).len() == 0,
            first matches Some(f) ==> f < i && git_roots@[f as int] is Some
                && strings_view(git_roots@[f as int]->0@) == found_roots(rv.take(i as int))[0],
            all_same == forall|k: int| 0 <= k < found_roots(rv.take(i as int)).len()
                ==> #[trigger] found_roots(rv.take(i as int))[k] == found_roots(rv.take(i as int))[0],
        decreases git_roots@.len() - i,
    {
        let ghost prev = found_roots(rv.take(i as int));
        assert(rv.take(i + 1).drop_last() =~= rv.take(i as int));
        assert(rv.take(i + 1).last() == rv[i as int]);
        match &git_roots[i] {
            Some(root) => {
                let ghost cur = found_roots(rv.take(i + 1));
                assert(cur == prev.push(strings_view(root@)));
                match first {
                    None => {
                        first = Some(i);
                        assert(cur.len() == 1);
                        assert(all_same == forall|k: int| 0 <= k < cur.len() ==> #[trigger] cur[k] == cur[0]);
                    },
                    Some(f) => {
                        let same = match &git_roots[f] {
                            Some(fr) => same_components(root, fr),
                            None => false,
                        };
                        proof {
                            assert(cur[0] == prev[0]);
                            if all_same && same {
                                assert forall|k: int| 0 <= k < cur.len() implies #[trigger] cur[k] == cur[0] by {
                                    if k < prev.len() {
                                        assert(cur[k] == prev[k]);
                                    }
                                }
                            }
                            if !same {
                                assert(cur[cur.len() - 1] != cur[0]);
                            }
                            if !all_same {
                                let k = choose|k: int| 0 <= k < prev.len() && #[trigger] prev[k] != prev[0];
                                assert(cur[k] == prev[k]);
                            }
                        }
                        all_same = all_same && same;
                    },
                }
            },
            None => {
                assert(found_roots(rv.take(i + 1)) == prev);
            },
        }
        i = i + 1;
    }
    assert(rv.take(git_roots@.len() as int) =~= rv);
    match first {
        Some(f) => {
            if all_same {
                match &git_roots[f] {
                    Some(root) => Ok(clone_strings(root)),
                    None => Err(owned("positional paths must belong to the same git repository")),
                }
            } else {
                Err(owned("positional paths must belong to the same git repository"))
            }
        },
        None => match common_ancestor(bases) {
            Some(a) => Ok(a),
            None => Err(owned("failed to determine a common root for positional paths")),
        },
    }
}

/// A path given by its components as text: `/` and the rest joined by `/`
/// for an absolute path, the components joined by `/` otherwise.
pub open spec fn display_components(p: Seq<Seq<char>>) -> Seq<char> {
    if p.len() > 0 && p[0] == "/"@ { "/"@ + joined(p.drop_first(), "/"@) } else { joined(p, "/"@) }
}

/// A path given by its components as text.
pub fn display_path(p: &Vec<String>) -> (res: String)
    ensures
        res@ == display_components(strings_view(p@)),
{
    if p.len() > 0 && str_eq(p[0].as_str(), "/") {
        let mut rest: Vec<String> = Vec::new();
        let mut i: usize = 1;
        while i < p.len()
            invariant
                1 <= i <= p@.len(),
                strings_view(rest@) == strings_view(p@).subrange(1, i as int),
            decreases p@.len() - i,
        {
            let x = owned(p[i].as_str());
            proof {
                lemma_strings_view_push(rest@, x);
            }
            rest.push(x);
            i = i + 1;
            assert(strings_view(rest@) =~= strings_view(p@).subrange(1, i as int));
        }
        assert(strings_view(p@).subrange(1, p@.len() as int) =~= strings_view(p@).drop_first());
        let joined_rest = join(&rest, "/");
        assert(rest@.map_values(|s: String| s@) =~= strings_view(rest@));
        concat("/", joined_rest.as_str())
    } else {
        let r = join(p, "/");
        assert(p@.map_values(|s: String| s@) =~= strings_view(p@));
        r
    }
}

/// A search path relative to the repository: `.` for the repository
/// itself, the rest of its components joined by `/` below it, and an error
/// for a path outside it.
pub open spec fn relativized(repo: Seq<Seq<char>>, target: Seq<Seq<char>>) -> Result<Seq<char>, Seq<char>> {
    if repo.is_prefix_of(target) {
        if target.len() == repo.len() { Ok("."@) } else { Ok(joined(target.skip(repo.len() as int), "/"@)) }
    } else {
        Err("search path "@ + display_components(target) + " is outside inferred root "@ + display_components(repo))
    }
}

/// A search path relative to the repository.
pub fn relativize_to_repo(repo: &Vec<String>, target: &Vec<String>) -> (res: Result<String, String>)
    ensures
        match res {
            Ok(r) => relativized(strings_view(repo@), strings_view(target@)) == Ok::<Seq<char>, Seq<char>>(r@),
            Err(e) => relativized(strings_view(repo@), strings_view(target@)) == Err::<Seq<char>, Seq<char>>(e@),
        },
{
    if !components_start_with(target, repo) {
        let mut msg = owned("search path ");
        let t = display_path(target);
        push_str(&mut msg, t.as_str());
        push_str(&mut msg, " is outside inferred root ");
        let r = display_path(repo);
        push_str(&mut msg, r.as_str());
        return Err(msg);
    }
    if target.len() == repo.len() {
        return Ok(owned("."));
    }
    let mut rest: Vec<String> = Vec::new();
    let mut i: usize = repo.len();
    while i < target.len()
        invariant
            repo@.len() <= i <= target@.len(),
            strings_view(rest@) == strings_view(target@).subrange(repo@.len() as int, i as int),
        decreases target@.len() - i,
    {
        let x = owned(target[i].as_str());
        proof {
            lemma_strings_view_push(rest@, x);
        }
        rest.push(x);
        i = i + 1;
        assert(strings_view(rest@) =~= strings_view(target@).subrange(repo@.len() as int, i as int));
    }
    assert(strings_view(target@).subrange(repo@.len() as int, target@.len() as int)
        =~= strings_view(target@).skip(repo@.len() as int));
    let r = join(&rest, "/");
    assert(rest@.map_values(|s: String| s@) =~= strings_view(rest@));
    Ok(r)
}

} // verus!
