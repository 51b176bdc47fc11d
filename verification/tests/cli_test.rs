use tracegrep::cli::{
    common_ancestor, display_path, infer_repo_root, looks_like_path, parse_passthrough, relativize_to_repo, Cli,
    CliPlan, RawArgs,
};

fn strings(v: &[&str]) -> Vec<String> {
    v.iter().map(|s| s.to_string()).collect()
}

fn raw(args: &[&str]) -> RawArgs {
    RawArgs {
        build_index: false,
        generate: None,
        install_completions: None,
        json: false,
        compact: false,
        include_tests: false,
        include_test_callers: false,
        depth: 1,
        max_context: 5,
        raw_args: strings(args),
    }
}

fn error_of(r: RawArgs, dash: bool) -> String {
    let present = vec![false; r.raw_args.len()];
    match Cli::from_raw(r, dash, &present) {
        Err(e) => e,
        Ok(_) => panic!("expected an error"),
    }
}

#[test]
fn path_like_arguments() {
    assert!(looks_like_path(".", false));
    assert!(looks_like_path("..", false));
    assert!(looks_like_path("src/lib.rs", false));
    assert!(looks_like_path("README", true));
    assert!(!looks_like_path("pattern", false));
}

#[test]
fn passthrough_splits_flags_pattern_and_paths() {
    let args = strings(&["-i", "-C", "2", "needle", "src", "tests/"]);
    let present = vec![false, false, false, false, true, false];
    let parsed = parse_passthrough(&args, false, &present).ok().unwrap();
    assert_eq!(parsed.pattern, "needle");
    assert_eq!(parsed.rg_args, strings(&["-i", "-C", "2"]));
    assert_eq!(parsed.search_paths, strings(&["src", "tests/"]));
}

#[test]
fn passthrough_keeps_one_argument_for_the_pattern() {
    let args = strings(&["src/", "lib/"]);
    let parsed = parse_passthrough(&args, false, &vec![false, false]).ok().unwrap();
    assert_eq!(parsed.pattern, "src/");
    assert_eq!(parsed.search_paths, strings(&["lib/"]));
    assert!(parsed.rg_args.is_empty());
}

#[test]
fn passthrough_errors() {
    assert_eq!(parse_passthrough(&Vec::new(), false, &Vec::new()).err().unwrap(), "missing pattern");
    let args = strings(&["-v"]);
    assert_eq!(
        parse_passthrough(&args, false, &vec![false]).err().unwrap(),
        "missing pattern (use -- before patterns that start with -)"
    );
    let parsed = parse_passthrough(&args, true, &vec![false]).ok().unwrap();
    assert_eq!(parsed.pattern, "-v");
}

#[test]
fn flags_that_cannot_go_together() {
    let mut r = raw(&["x"]);
    r.json = true;
    r.compact = true;
    assert_eq!(error_of(r, false), "--compact cannot be used together with --json");

    let mut r = raw(&[]);
    r.build_index = true;
    r.json = true;
    assert_eq!(error_of(r, false), "--build-index cannot be used with --json, --compact, or --include-test-callers");

    let mut r = raw(&[]);
    r.generate = Some("zsh".to_string());
    r.install_completions = Some("zsh".to_string());
    assert_eq!(error_of(r, false), "--generate cannot be used together with --install-completions");

    let mut r = raw(&["x"]);
    r.generate = Some("zsh".to_string());
    assert_eq!(error_of(r, false), "--generate cannot be combined with query flags or positional arguments");

    let mut r = raw(&[]);
    r.install_completions = Some("zsh".to_string());
    r.include_tests = true;
    assert_eq!(
        error_of(r, false),
        "--install-completions cannot be combined with query flags or positional arguments"
    );

    let mut r = raw(&["-x"]);
    r.build_index = true;
    assert_eq!(error_of(r, false), "--build-index accepts only optional path arguments");

    assert_eq!(error_of(raw(&[]), false), "missing pattern");
}

#[test]
fn plans_for_each_kind_of_command_line() {
    let mut r = raw(&[]);
    r.generate = Some("bash".to_string());
    match Cli::from_raw(r, false, &Vec::new()) {
        Ok(CliPlan::Ready(cli)) => {
            assert_eq!(cli.generate.as_deref(), Some("bash"));
            assert_eq!(cli.repo, ".");
        }
        _ => panic!("expected a ready plan"),
    }

    let mut r = raw(&["some/dir"]);
    r.build_index = true;
    match Cli::from_raw(r, false, &vec![false]) {
        Ok(CliPlan::ResolvePaths(cli, paths)) => {
            assert!(cli.build_index);
            assert_eq!(paths, strings(&["some/dir"]));
        }
        _ => panic!("expected paths to resolve"),
    }

    match Cli::from_raw(raw(&["-w", "needle"]), false, &vec![false, false]) {
        Ok(CliPlan::Ready(cli)) => {
            assert_eq!(cli.pattern, "needle");
            assert_eq!(cli.rg_args, strings(&["-w"]));
            assert_eq!(cli.depth, 1);
            assert_eq!(cli.max_context, 5);
            assert_eq!(cli.repo, ".");
        }
        _ => panic!("expected a ready query"),
    }

    match Cli::from_raw(raw(&["needle", "src"]), false, &vec![false, true]) {
        Ok(CliPlan::ResolvePaths(cli, paths)) => {
            assert_eq!(cli.pattern, "needle");
            assert_eq!(paths, strings(&["src"]));
        }
        _ => panic!("expected paths to resolve"),
    }
}

#[test]
fn repo_root_from_git_roots_or_common_ancestor() {
    let repo = strings(&["/", "work", "repo"]);
    let bases = vec![strings(&["/", "work", "repo", "src"]), strings(&["/", "work", "repo", "tests"])];
    let roots = vec![Some(repo.clone()), None];
    assert_eq!(infer_repo_root(&roots, &bases).ok().unwrap(), repo);

    let roots = vec![Some(repo.clone()), Some(strings(&["/", "other"]))];
    assert_eq!(
        infer_repo_root(&roots, &bases).err().unwrap(),
        "positional paths must belong to the same git repository"
    );

    let roots = vec![None, None];
    assert_eq!(infer_repo_root(&roots, &bases).ok().unwrap(), repo);
    assert_eq!(
        infer_repo_root(&Vec::new(), &Vec::new()).err().unwrap(),
        "failed to determine a common root for positional paths"
    );
}

#[test]
fn common_ancestor_of_paths() {
    let paths = vec![strings(&["/", "a", "b", "c"]), strings(&["/", "a", "d"])];
    assert_eq!(common_ancestor(&paths), Some(strings(&["/", "a"])));
    assert_eq!(common_ancestor(&Vec::new()), None);
}

#[test]
fn search_paths_relative_to_the_repo() {
    let repo = strings(&["/", "work", "repo"]);
    assert_eq!(relativize_to_repo(&repo, &repo).ok().unwrap(), ".");
    let target = strings(&["/", "work", "repo", "src", "lib.rs"]);
    assert_eq!(relativize_to_repo(&repo, &target).ok().unwrap(), "src/lib.rs");
    let outside = strings(&["/", "work", "elsewhere"]);
    assert_eq!(
        relativize_to_repo(&repo, &outside).err().unwrap(),
        "search path /work/elsewhere is outside inferred root /work/repo"
    );
    assert_eq!(display_path(&strings(&["src", "main.rs"])), "src/main.rs");
    assert_eq!(display_path(&strings(&["/"])), "/");
}
