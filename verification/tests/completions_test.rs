use tracegrep::completions::{
    ensure_managed_block, generate, install, shell_single_quote, Shell, RC_MARKER_END, RC_MARKER_START,
};

#[test]
fn test_generate_zsh_completion_mentions_path_completion() {
    let text = generate("complete-zsh").ok().unwrap();
    assert!(text.contains("#compdef tg tracegrep"));
    assert!(text.contains("_files"));
    assert!(text.contains("--install-completions"));
}

#[test]
fn test_install_zsh_completions_writes_files_and_updates_rc() {
    let plan = install(Some("zsh"), None, Some("/home/u"), Some("/data"), None).ok().unwrap();
    assert_eq!(plan.shell, Shell::Zsh);
    assert_eq!(plan.directory, "/data/zsh/site-functions");
    assert_eq!(plan.files, vec!["/data/zsh/site-functions/_tg".to_string()]);
    assert!(plan.contents.contains("_files"));
    let rc = plan.rc.unwrap();
    assert_eq!(rc.path, "/home/u/.zshrc");
    let text = ensure_managed_block("", rc.marker_start, rc.marker_end, &rc.body).unwrap();
    assert!(text.contains("tracegrep completions"));
    assert!(text.contains("/data/zsh/site-functions"));
    assert_eq!(rc.body, "fpath=('/data/zsh/site-functions' $fpath)");
}

#[test]
fn generate_targets() {
    assert!(generate("complete-bash").ok().unwrap().contains("complete"));
    assert!(generate("complete-fish").ok().unwrap().contains("complete"));
    assert_eq!(
        generate("complete-tcsh").err().unwrap(),
        "unsupported generate target \"complete-tcsh\"; expected complete-bash, complete-zsh, or complete-fish"
    );
}

#[test]
fn shells_by_name() {
    assert_eq!(Shell::parse("bash"), Ok(Shell::Bash));
    assert_eq!(Shell::parse("fish"), Ok(Shell::Fish));
    assert_eq!(Shell::parse("ksh").err().unwrap(), "unsupported shell \"ksh\"; expected bash, zsh, or fish");
}

#[test]
fn install_detects_the_shell_from_its_path() {
    let plan = install(None, Some("/usr/bin/bash"), Some("/home/u"), None, None).ok().unwrap();
    assert_eq!(plan.shell, Shell::Bash);
    assert_eq!(plan.directory, "/home/u/.local/share/bash-completion/completions");
    assert_eq!(
        plan.files,
        vec![
            "/home/u/.local/share/bash-completion/completions/tg".to_string(),
            "/home/u/.local/share/bash-completion/completions/tracegrep".to_string(),
        ]
    );
    let rc = plan.rc.unwrap();
    assert_eq!(rc.path, "/home/u/.bashrc");
    assert_eq!(
        rc.body,
        "if [ -f '/home/u/.local/share/bash-completion/completions/tg' ]; then\n  . '/home/u/.local/share/bash-completion/completions/tg'\nfi"
    );
}

#[test]
fn install_for_fish_writes_no_startup_block() {
    let plan = install(Some("fish"), None, None, None, Some("/cfg")).ok().unwrap();
    assert_eq!(plan.directory, "/cfg/fish/completions");
    assert_eq!(plan.files, vec!["/cfg/fish/completions/tg.fish".to_string(), "/cfg/fish/completions/tracegrep.fish".to_string()]);
    assert!(plan.rc.is_none());
}

#[test]
fn install_errors() {
    assert_eq!(install(None, None, Some("/h"), None, None).err().unwrap(), "SHELL is not set; pass an explicit shell");
    assert_eq!(install(Some("zsh"), None, None, Some("/data"), None).err().unwrap(), "HOME is not set");
    assert_eq!(install(Some("fish"), None, None, None, None).err().unwrap(), "HOME is not set");
}

#[test]
fn managed_block_is_added_once() {
    let first = ensure_managed_block("export A=1", RC_MARKER_START, RC_MARKER_END, "body").unwrap();
    assert_eq!(first, "export A=1\n# >>> tracegrep completions >>>\nbody\n# <<< tracegrep completions <<<\n");
    assert!(ensure_managed_block(&first, RC_MARKER_START, RC_MARKER_END, "body").is_none());
}

#[test]
fn single_quotes_escape_quotes() {
    assert_eq!(shell_single_quote("/a b"), "'/a b'");
    assert_eq!(shell_single_quote("it's"), "'it'\"'\"'s'");
}

#[test]
fn shell_names_are_quoted_as_debug_text() {
    assert_eq!(Shell::parse("a\"b").err().unwrap(), "unsupported shell \"a\\\"b\"; expected bash, zsh, or fish");
    assert_eq!(
        install(None, Some("/"), Some("/h"), None, None).err().unwrap(),
        "failed to detect shell from SHELL=\"/\""
    );
}

#[test]
fn installing_twice_plans_the_same_and_keeps_the_rc_text() {
    let first = install(Some("bash"), None, Some("/home/u"), None, None).ok().unwrap();
    let second = install(Some("bash"), None, Some("/home/u"), None, None).ok().unwrap();
    assert_eq!(first.directory, second.directory);
    assert_eq!(first.files, second.files);
    assert_eq!(first.contents, second.contents);
    let r1 = first.rc.unwrap();
    let r2 = second.rc.unwrap();
    assert_eq!(r1.path, r2.path);
    let once = ensure_managed_block("export A=1\n", r1.marker_start, r1.marker_end, &r1.body).unwrap();
    assert!(once.starts_with("export A=1\n"));
    assert!(ensure_managed_block(&once, r2.marker_start, r2.marker_end, &r2.body).is_none());
}
