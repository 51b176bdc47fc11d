use vstd::prelude::*;
use crate::paths::{path_file_name, file_name_of, joined_path, path_join};
use crate::text::{occurs_at, owned, str_eq, concat, push_str, push_char, chars_of, empty_string, seq_contains, seq_ends_with,
    str_contains, str_ends_with, debug_quoted, debug_text};

verus! {

pub const ZSH_COMPLETION: &'static str = r#"#compdef tg tracegrep

_tg() {
  local curcontext="$curcontext" state
  typeset -A opt_args

  _arguments -C \
    '--json[Output enriched results as JSON]' \
    '--compact[Collapse human-readable context onto the location line]' \
    '--build-index[Build or refresh the cached call graph index, then exit]' \
    '--include-tests[Include test-file callers and references in the graph]' \
    '--include-test-callers[Show callers that originate from test code]' \
    '--depth[How many caller levels to show]:depth:' \
    '--max-context[Max callers or references per section]:count:' \
    '--generate[Generate completion scripts]:target:(complete-bash complete-zsh complete-fish)' \
    '--install-completions[Install shell completions for the current or given shell]:shell:(bash zsh fish)' \
    '(-h --help)'{-h,--help}'[Print help]' \
    '(-V --version)'{-V,--version}'[Print version]' \
    '*:arg:->args'

  case $state in
    args)
      local saw_delim=0
      local build_index=0
      local positional=0
      local expect_value=0
      local arg

      for arg in "${words[@]:1}"; do
        if (( expect_value )); then
          expect_value=0
          continue
        fi
        if (( saw_delim )); then
          (( positional++ ))
          continue
        fi
        case "$arg" in
          --)
            saw_delim=1
            ;;
          --build-index)
            build_index=1
            ;;
          --depth|--max-context|--generate|--install-completions)
            expect_value=1
            ;;
          -*)
            ;;
          *)
            (( positional++ ))
            ;;
        esac
      done

      if (( build_index )); then
        _files
      elif (( positional >= 2 )); then
        _files
      else
        _message 'pattern'
      fi
      ;;
  esac
}

compdef _tg tg tracegrep
"#;

pub const BASH_COMPLETION: &'static str = r#"_tg() {
  local cur prev positional expect_value saw_delim build_index word i
  COMPREPLY=()
  cur="${COMP_WORDS[COMP_CWORD]}"
  prev="${COMP_WORDS[COMP_CWORD-1]}"

  local opts="--json --compact --build-index --include-tests --include-test-callers --depth --max-context --generate --install-completions -h --help -V --version"

  case "${prev}" in
    --generate)
      COMPREPLY=($(compgen -W "complete-bash complete-zsh complete-fish" -- "${cur}"))
      return 0
      ;;
    --install-completions)
      COMPREPLY=($(compgen -W "bash zsh fish" -- "${cur}"))
      return 0
      ;;
    --depth|--max-context)
      return 0
      ;;
  esac

  if [[ ${cur} == -* ]]; then
    COMPREPLY=($(compgen -W "${opts}" -- "${cur}"))
    return 0
  fi

  positional=0
  expect_value=0
  saw_delim=0
  build_index=0

  for ((i = 1; i < ${#COMP_WORDS[@]}; i++)); do
    word="${COMP_WORDS[i]}"
    if (( expect_value )); then
      expect_value=0
      continue
    fi
    if (( saw_delim )); then
      ((positional++))
      continue
    fi
    case "${word}" in
      --)
        saw_delim=1
        ;;
      --build-index)
        build_index=1
        ;;
      --depth|--max-context|--generate|--install-completions)
        expect_value=1
        ;;
      -*)
        ;;
      *)
        ((positional++))
        ;;
    esac
  done

  if (( build_index || positional >= 1 )); then
    COMPREPLY=($(compgen -f -- "${cur}"))
  fi
}

complete -F _tg tg
complete -F _tg tracegrep
"#;

pub const FISH_COMPLETION: &'static str = r#"function __tg_positional_state
    set -l tokens (commandline -opc)
    set -e tokens[1]

    set -l positional 0
    set -l expect_value 0
    set -l saw_delim 0
    set -l build_index 0

    for token in $tokens
        if test $expect_value -eq 1
            set expect_value 0
            continue
        end

        if test $saw_delim -eq 1
            set positional (math $positional + 1)
            continue
        end

        switch $token
            case --
                set saw_delim 1
            case --build-index
                set build_index 1
            case --depth --max-context --generate --install-completions
                set expect_value 1
            case '-*'
            case '*'
                set positional (math $positional + 1)
        end
    end

    echo $build_index $positional
end

function __tg_needs_path
    set -l state (__tg_positional_state)
    test $state[1] -eq 1; and return 0
    test $state[2] -ge 1
end

complete -c tg -c tracegrep -l json -d 'Output enriched results as JSON'
complete -c tg -c tracegrep -l compact -d 'Collapse human-readable context onto the location line'
complete -c tg -c tracegrep -l build-index -d 'Build or refresh the cached call graph index, then exit'
complete -c tg -c tracegrep -l include-tests -d 'Include test-file callers and references in the graph'
complete -c tg -c tracegrep -l include-test-callers -d 'Show callers that originate from test code'
complete -c tg -c tracegrep -l depth -d 'How many caller levels to show' -r
complete -c tg -c tracegrep -l max-context -d 'Max callers or references per section' -r
complete -c tg -c tracegrep -l generate -d 'Generate completion scripts' -r -a 'complete-bash complete-zsh complete-fish'
complete -c tg -c tracegrep -l install-completions -d 'Install shell completions' -r -a 'bash zsh fish'
complete -c tg -c tracegrep -s h -l help -d 'Print help'
complete -c tg -c tracegrep -s V -l version -d 'Print version'
complete -c tg -c tracegrep -f -n '__tg_needs_path' -a '(__fish_complete_path)'
"#;

pub const RC_MARKER_START: &'static str = "# >>> tracegrep completions >>>";
pub const RC_MARKER_END: &'static str = "# <<< tracegrep completions <<<";

/// A shell that completions can be installed for.
#[derive(Clone, Copy, Debug, Eq, PartialEq, Structural)]
pub enum Shell {
    Bash,
    Zsh,
    Fish,
}

/// The shell a name names, or the error for another name.
pub open spec fn shell_named(value: Seq<char>) -> Result<Shell, Seq<char>> {
    if value == "bash"@ {
        Ok(Shell::Bash)
    } else if value == "zsh"@ {
        Ok(Shell::Zsh)
    } else if value == "fish"@ {
        Ok(Shell::Fish)
    } else {
        Err("unsupported shell "@ + debug_text(value) + "; expected bash, zsh, or fish"@)
    }
}

/// The shell a `--generate` target names, or the error for another target.
pub open spec fn shell_target(value: Seq<char>) -> Result<Shell, Seq<char>> {
    if value == "complete-bash"@ {
        Ok(Shell::Bash)
    } else if value == "complete-zsh"@ {
        Ok(Shell::Zsh)
    } else if value == "complete-fish"@ {
        Ok(Shell::Fish)
    } else {
        Err("unsupported generate target "@ + debug_text(value)
            + "; expected complete-bash, complete-zsh, or complete-fish"@)
    }
}

impl Shell {
    /// The shell named `bash`, `zsh` or `fish`.
    pub fn parse(value: &str) -> (res: Result<Self, String>)
        ensures
            match res {
                Ok(s) => shell_named(value@) == Ok::<Shell, Seq<char>>(s),
                Err(e) => shell_named(value@) == Err::<Shell, Seq<char>>(e@),
            },
    {
        if str_eq(value, "bash") {
            Ok(Shell::Bash)
        } else if str_eq(value, "zsh") {
            Ok(Shell::Zsh)
        } else if str_eq(value, "fish") {
            Ok(Shell::Fish)
        } else {
            let mut msg = owned("unsupported shell ");
            let quoted = debug_quoted(value);
            push_str(&mut msg, quoted.as_str());
            push_str(&mut msg, "; expected bash, zsh, or fish");
            Err(msg)
        }
    }

    /// The shell of a `--generate` target: `complete-bash`, `complete-zsh`
    /// or `complete-fish`.
    pub fn generate_arg(value: &str) -> (res: Result<Self, String>)
        ensures
            match res {
                Ok(s) => shell_target(value@) == Ok::<Shell, Seq<char>>(s),
                Err(e) => shell_target(value@) == Err::<Shell, Seq<char>>(e@),
            },
    {
        if str_eq(value, "complete-bash") {
            Ok(Shell::Bash)
        } else if str_eq(value, "complete-zsh") {
            Ok(Shell::Zsh)
        } else if str_eq(value, "complete-fish") {
            Ok(Shell::Fish)
        } else {
            let mut msg = owned("unsupported generate target ");
            let quoted = debug_quoted(value);
            push_str(&mut msg, quoted.as_str());
            push_str(&mut msg, "; expected complete-bash, complete-zsh, or complete-fish");
            Err(msg)
        }
    }

    /// The completion script of the shell.
    pub fn completion_text(self) -> (res: &'static str)
        ensures
            res == match self {
                Shell::Bash => BASH_COMPLETION,
                Shell::Zsh => ZSH_COMPLETION,
                Shell::Fish => FISH_COMPLETION,
            },
    {
        match self {
            Shell::Bash => BASH_COMPLETION,
            Shell::Zsh => ZSH_COMPLETION,
            Shell::Fish => FISH_COMPLETION,
        }
    }
}

/// The completion script for a `--generate` target.
pub fn generate(target: &str) -> (res: Result<&'static str, String>)
    ensures
        match res {
            Ok(text) => shell_target(target@) matches Ok(s) && text == match s {
                Shell::Bash => BASH_COMPLETION,
                Shell::Zsh => ZSH_COMPLETION,
                Shell::Fish => FISH_COMPLETION,
            },
            Err(e) => shell_target(target@) == Err::<Shell, Seq<char>>(e@),
        },
{
    match Shell::generate_arg(target) {
        Ok(shell) => Ok(shell.completion_text()),
        Err(e) => Err(e),
    }
}

/// `s` in single quotes for a shell, each `'` written as `'"'"'`.
pub open spec fn quote_body(s: Seq<char>) -> Seq<char>
    decreases s.len(),
{
    if s.len() == 0 {
        Seq::empty()
    } else {
        quote_body(s.drop_last()) + if s.last() == '\'' { "'\"'\"'"@ } else { seq![s.last()] }
    }
}

pub open spec fn single_quoted(s: Seq<char>) -> Seq<char> {
    "'"@ + quote_body(s) + "'"@
}

/// A path in single quotes for a shell.
pub fn shell_single_quote(path: &str) -> (res: String)
    ensures
        res@ == single_quoted(path@),
{
    let chars = chars_of(path);
    let mut out = owned("'");
    let ghost start = out@;
    let mut i: usize = 0;
    while i < chars.len()
        invariant
            i <= chars@.len(),
            chars@ == path@,
            out@ == start + quote_body(chars@.take(i as int)),
        decreases chars@.len() - i,
    {
        assert(chars@.take(i + 1).drop_last() =~= chars@.take(i as int));
        assert(chars@.take(i + 1).last() == chars@[i as int]);
        if chars[i] == '\'' {
            push_str(&mut out, "'\"'\"'");
        } else {
            push_char(&mut out, chars[i]);
        }
        i = i + 1;
        assert(out@ =~= start + quote_body(chars@.take(i as int)));
    }
    assert(chars@.take(chars@.len() as int) =~= chars@);
    push_str(&mut out, "'");
    out
}

/// The shell startup file with the managed block added: nothing to do
/// when both markers are there; otherwise the block goes at the end, on
/// lines of its own.
pub open spec fn with_managed_block(existing: Seq<char>, start: Seq<char>, end: Seq<char>, body: Seq<char>)
    -> Option<Seq<char>>
{
    if seq_contains(existing, start) && seq_contains(existing, end) {
        None
    } else {
        let lead = if existing.len() > 0 && !seq_ends_with(existing, "\n"@) { existing + "\n"@ } else { existing };
        Some(lead + start + "\n"@ + body + "\n"@ + end + "\n"@)
    }
}

/// Law: adding the managed block is idempotent. Once a startup file has
/// been given the block, a second installation leaves it as it is.
pub proof fn law_managed_block_idempotent(existing: Seq<char>, start: Seq<char>, end: Seq<char>, body: Seq<char>)
    ensures
        with_managed_block(existing, start, end, body) matches Some(t)
            ==> with_managed_block(t, start, end, body) is None,
{
    if let Some(t) = with_managed_block(existing, start, end, body) {
        let lead = if existing.len() > 0 && !seq_ends_with(existing, "\n"@) { existing + "\n"@ } else { existing };
        let nl = "\n"@;
        assert(t == lead + start + nl + body + nl + end + nl);
        let i = lead.len() as int;
        assert(t.subrange(i, i + start.len()) =~= start);
        assert(occurs_at(t, start, i));
        let k = (lead.len() + start.len() + nl.len() + body.len() + nl.len()) as int;
        assert(t.subrange(k, k + end.len()) =~= end);
        assert(occurs_at(t, end, k));
    }
}

/// The new text of a shell startup file, if the block must be added.
pub fn ensure_managed_block(existing: &str, marker_start: &str, marker_end: &str, body: &str) -> (res: Option<String>)
    ensures
        match res {
            Some(t) => with_managed_block(existing@, marker_start@, marker_end@, body@) == Some(t@),
            None => with_managed_block(existing@, marker_start@, marker_end@, body@) is None,
        },
{
    if str_contains(existing, marker_start) && str_contains(existing, marker_end) {
        return None;
    }
    let mut next = owned(existing);
    if !existing.is_empty() && !str_ends_with(existing, "\n") {
        push_str(&mut next, "\n");
    }
    push_str(&mut next, marker_start);
    push_str(&mut next, "\n");
    push_str(&mut next, body);
    push_str(&mut next, "\n");
    push_str(&mut next, marker_end);
    push_str(&mut next, "\n");
    Some(next)
}

/// What installing completions did: the shell, the files written and the
/// startup files updated.
pub struct InstallResult {
    pub shell: Shell,
    pub written_files: Vec<String>,
    pub updated_rc_files: Vec<String>,
}

/// A block to add to a shell startup file.
pub struct RcUpdate {
    pub path: String,
    pub marker_start: &'static str,
    pub marker_end: &'static str,
    pub body: String,
}

/// What installing completions writes: a directory, completion files in
/// it, and a block in a startup file.
pub struct InstallPlan {
    pub shell: Shell,
    pub directory: String,
    pub files: Vec<String>,
    pub contents: &'static str,
    pub rc: Option<RcUpdate>,
}

/// Where user data goes: `$XDG_DATA_HOME`, or `~/.local/share`.
pub open spec fn data_home_of(home: Option<Seq<char>>, xdg_data_home: Option<Seq<char>>) -> Option<Seq<char>> {
    match xdg_data_home {
        Some(d) => Some(d),
        None => match home {
            Some(h) => Some(joined_path(joined_path(h, ".local"@), "share"@)),
            None => None,
        },
    }
}

/// Where user settings go: `$XDG_CONFIG_HOME`, or `~/.config`.
pub open spec fn config_home_of(home: Option<Seq<char>>, xdg_config_home: Option<Seq<char>>) -> Option<Seq<char>> {
    match xdg_config_home {
        Some(d) => Some(d),
        None => match home {
            Some(h) => Some(joined_path(h, ".config"@)),
            None => None,
        },
    }
}

pub open spec fn opt_view(o: Option<&str>) -> Option<Seq<char>> {
    match o { Some(s) => Some(s@), None => None }
}

fn data_home(home: Option<&str>, xdg_data_home: Option<&str>) -> (res: Result<String, String>)
    ensures
        match res {
            Ok(d) => data_home_of(opt_view(home), opt_view(xdg_data_home)) == Some(d@),
            Err(e) => data_home_of(opt_view(home), opt_view(xdg_data_home)) is None && e@ == "HOME is not set"@,
        },
{
    match xdg_data_home {
        Some(d) => Ok(owned(d)),
        None => match home {
            Some(h) => {
                let local = path_join(h, ".local");
                Ok(path_join(local.as_str(), "share"))
            },
            None => Err(owned("HOME is not set")),
        },
    }
}

fn config_home(home: Option<&str>, xdg_config_home: Option<&str>) -> (res: Result<String, String>)
    ensures
        match res {
            Ok(d) => config_home_of(opt_view(home), opt_view(xdg_config_home)) == Some(d@),
            Err(e) => config_home_of(opt_view(home), opt_view(xdg_config_home)) is None && e@ == "HOME is not set"@,
        },
{
    match xdg_config_home {
        Some(d) => Ok(owned(d)),
        None => match home {
            Some(h) => Ok(path_join(h, ".config")),
            None => Err(owned("HOME is not set")),
        },
    }
}

/// What installing completions for `shell` writes, given the home
/// directory and the XDG directories from the environment.
pub open spec fn install_plan_ok(shell: Shell, home: Option<Seq<char>>, data: Option<Seq<char>>,
    config: Option<Seq<char>>, plan: InstallPlan) -> bool
{
    &&& plan.shell == shell
    &&& match shell {
        Shell::Bash => {
            let dir = joined_path(joined_path(data_home_of(home, data)->0, "bash-completion"@), "completions"@);
            &&& plan.directory@ == dir
            &&& plan.files@.len() == 2
            &&& plan.files@[0]@ == joined_path(dir, "tg"@)
            &&& plan.files@[1]@ == joined_path(dir, "tracegrep"@)
            &&& plan.contents == BASH_COMPLETION
            &&& plan.rc matches Some(rc) && rc.path@ == joined_path(home->0, ".bashrc"@)
                && rc.marker_start == RC_MARKER_START && rc.marker_end == RC_MARKER_END
                && rc.body@ == "if [ -f "@ + single_quoted(joined_path(dir, "tg"@)) + " ]; then\n  . "@
                    + single_quoted(joined_path(dir, "tg"@)) + "\nfi"@
        },
        Shell::Zsh => {
            let dir = joined_path(joined_path(data_home_of(home, data)->0, "zsh"@), "site-functions"@);
            &&& plan.directory@ == dir
            &&& plan.files@.len() == 1
            &&& plan.files@[0]@ == joined_path(dir, "_tg"@)
            &&& plan.contents == ZSH_COMPLETION
            &&& plan.rc matches Some(rc) && rc.path@ == joined_path(home->0, ".zshrc"@)
                && rc.marker_start == RC_MARKER_START && rc.marker_end == RC_MARKER_END
                && rc.body@ == "fpath=("@ + single_quoted(dir) + " $fpath)"@
        },
        Shell::Fish => {
            let dir = joined_path(joined_path(config_home_of(home, config)->0, "fish"@), "completions"@);
            &&& plan.directory@ == dir
            &&& plan.files@.len() == 2
            &&& plan.files@[0]@ == joined_path(dir, "tg.fish"@)
            &&& plan.files@[1]@ == joined_path(dir, "tracegrep.fish"@)
            &&& plan.contents == FISH_COMPLETION
            &&& plan.rc is None
        },
    }
}

/// Whether the places to install to are known: bash and zsh need the home
/// directory (for the startup file), fish a configuration directory.
pub open spec fn install_dirs_known(shell: Shell, home: Option<Seq<char>>, xdg_config_home: Option<Seq<char>>) -> bool {
    match shell {
        Shell::Bash => home is Some,
        Shell::Zsh => home is Some,
        Shell::Fish => config_home_of(home, xdg_config_home) is Some,
    }
}

/// Law: installing twice in the same environment succeeds both times and
/// writes the same thing: the same directory, the same completion files
/// with the same contents, and the same startup file. Once the first
/// install has put its block into the startup file's text, the second
/// finds the block in place and leaves the text as it is.
pub proof fn law_install_twice_keeps_rc(shell_arg: Option<Seq<char>>, shell_env: Option<Seq<char>>,
    home: Option<Seq<char>>, data: Option<Seq<char>>, config: Option<Seq<char>>,
    first: Result<InstallPlan, String>, second: Result<InstallPlan, String>, existing: Seq<char>)
    requires
        install_outcome(shell_arg, shell_env, home, data, config, first),
        install_outcome(shell_arg, shell_env, home, data, config, second),
        first is Ok,
    ensures
        second is Ok,
        first matches Ok(p1) ==> second matches Ok(p2) && {
            &&& p1.shell == p2.shell
            &&& p1.directory@ == p2.directory@
            &&& p1.files@.len() == p2.files@.len()
            &&& forall|i: int| 0 <= i < p1.files@.len() ==> #[trigger] p1.files@[i]@ == p2.files@[i]@
            &&& p1.contents@ == p2.contents@
            &&& (p1.rc is Some <==> p2.rc is Some)
            &&& p1.rc matches Some(r1) ==> p2.rc matches Some(r2) && r1.path@ == r2.path@ && (
                with_managed_block(existing, r1.marker_start@, r1.marker_end@, r1.body@) matches Some(t)
                ==> with_managed_block(t, r2.marker_start@, r2.marker_end@, r2.body@) is None)
        },
{
    if let Ok(p1) = first {
        if let Some(r1) = p1.rc {
            law_managed_block_idempotent(existing, r1.marker_start@, r1.marker_end@, r1.body@);
        }
    }
}

/// The shell whose completions to install: the one named, or the one
/// that `$SHELL` names.
pub open spec fn chosen_shell(shell_arg: Option<Seq<char>>, shell_env: Option<Seq<char>>) -> Result<Shell, Seq<char>> {
    match shell_arg {
        Some(name) => shell_named(name),
        None => match shell_env {
            None => Err("SHELL is not set; pass an explicit shell"@),
            Some(path) => match file_name_of(path) {
                Some(name) => shell_named(name),
                None => Err("failed to detect shell from SHELL="@ + debug_text(path)),
            },
        },
    }
}

/// What installing completions gives for these arguments and this
/// environment: the plan for the chosen shell, or the error that stops it.
pub open spec fn install_outcome(shell_arg: Option<Seq<char>>, shell_env: Option<Seq<char>>, home: Option<Seq<char>>,
    data: Option<Seq<char>>, config: Option<Seq<char>>, res: Result<InstallPlan, String>) -> bool
{
    match res {
        Ok(plan) => chosen_shell(shell_arg, shell_env) == Ok::<Shell, Seq<char>>(plan.shell)
            && install_dirs_known(plan.shell, home, config)
            && install_plan_ok(plan.shell, home, data, config, plan),
        Err(e) => match chosen_shell(shell_arg, shell_env) {
            Err(m) => e@ == m,
            Ok(s) => !install_dirs_known(s, home, config) && e@ == "HOME is not set"@,
        },
    }
}

/// What installing completions writes: for the shell named, or else the
/// one `$SHELL` names, the completion files and the startup-file block.
pub fn install(shell_arg: Option<&str>, shell_env: Option<&str>, home: Option<&str>, xdg_data_home: Option<&str>,
    xdg_config_home: Option<&str>) -> (res: Result<InstallPlan, String>)
    ensures
        install_outcome(opt_view(shell_arg), opt_view(shell_env), opt_view(home), opt_view(xdg_data_home),
            opt_view(xdg_config_home), res),
{
    let shell = match shell_arg {
        Some(value) => Shell::parse(value),
        None => match shell_env {
            None => Err(owned("SHELL is not set; pass an explicit shell")),
            Some(path) => match path_file_name(path) {
                Some(name) => Shell::parse(name.as_str()),
                None => {
                    let mut msg = owned("failed to detect shell from SHELL=");
                    let quoted = debug_quoted(path);
                    push_str(&mut msg, quoted.as_str());
                    Err(msg)
                },
            },
        },
    };
    let shell = match shell {
        Ok(s) => s,
        Err(e) => {
            return Err(e);
        },
    };
    match shell {
        Shell::Bash => {
            let data = match data_home(home, xdg_data_home) {
                Ok(d) => d,
                Err(e) => {
                    return Err(e);
                },
            };
            let base = path_join(data.as_str(), "bash-completion");
            let dir = path_join(base.as_str(), "completions");
            let tg = path_join(dir.as_str(), "tg");
            let tracegrep = path_join(dir.as_str(), "tracegrep");
            let h = match home {
                Some(h) => h,
                None => {
                    return Err(owned("HOME is not set"));
                },
            };
            let rc_path = path_join(h, ".bashrc");
            let quoted = shell_single_quote(tg.as_str());
            let mut body = owned("if [ -f ");
            push_str(&mut body, quoted.as_str());
            push_str(&mut body, " ]; then\n  . ");
            push_str(&mut body, quoted.as_str());
            push_str(&mut body, "\nfi");
            let mut files: Vec<String> = Vec::new();
            files.push(tg);
            files.push(tracegrep);
            Ok(InstallPlan {
                shell,
                directory: dir,
                files,
                contents: BASH_COMPLETION,
                rc: Some(RcUpdate { path: rc_path, marker_start: RC_MARKER_START, marker_end: RC_MARKER_END, body }),
            })
        },
        Shell::Zsh => {
            let data = match data_home(home, xdg_data_home) {
                Ok(d) => d,
                Err(e) => {
                    return Err(e);
                },
            };
            let base = path_join(data.as_str(), "zsh");
            let dir = path_join(base.as_str(), "site-functions");
            let tg = path_join(dir.as_str(), "_tg");
            let h = match home {
                Some(h) => h,
                None => {
                    return Err(owned("HOME is not set"));
                },
            };
            let rc_path = path_join(h, ".zshrc");
            let quoted = shell_single_quote(dir.as_str());
            let mut body = owned("fpath=(");
            push_str(&mut body, quoted.as_str());
            push_str(&mut body, " $fpath)");
            let mut files: Vec<String> = Vec::new();
            files.push(tg);
            Ok(InstallPlan {
                shell,
                directory: dir,
                files,
                contents: ZSH_COMPLETION,
                rc: Some(RcUpdate { path: rc_path, marker_start: RC_MARKER_START, marker_end: RC_MARKER_END, body }),
            })
        },
        Shell::Fish => {
            let config = match config_home(home, xdg_config_home) {
                Ok(d) => d,
                Err(e) => {
                    return Err(e);
                },
            };
            let base = path_join(config.as_str(), "fish");
            let dir = path_join(base.as_str(), "completions");
            let tg = path_join(dir.as_str(), "tg.fish");
            let tracegrep = path_join(dir.as_str(), "tracegrep.fish");
            let mut files: Vec<String> = Vec::new();
            files.push(tg);
            files.push(tracegrep);
            Ok(InstallPlan { shell, directory: dir, files, contents: FISH_COMPLETION, rc: None })
        },
    }
}

} // verus!
