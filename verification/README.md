# tracegrep

`tracegrep` (`tg`) runs ripgrep and shows, for each match, the function that
holds it, the callers of that function and the places that pass it around,
from a call graph built with tree-sitter and cached per language.

The library under `src/` is verified with Verus:

- `analysis/codepaths/parsing/`: the syntax tree of a file (`syntax.rs`) and
  what each language's walk extracts from it: functions, call sites with their
  branch conditions, and references.
- `analysis/codepaths/graph.rs`, `enumeration.rs`: resolving calls into a call
  graph, merging per-language graphs, and enumerating code paths.
- `query_data.rs`: the line-to-function index and the reverse edge lists.
- `commands/query.rs`: callers and references of a match, their order and
  limits, and the text and JSON forms of a match.
- `graph_cache.rs`: cache file names, fingerprints, git status parsing, and the
  per-language decision to reuse, refresh, update or rebuild a cache.
- `cli.rs`, `completions.rs`, `timing.rs`, `sdk/`: argument handling, shell
  completions, stage timings and the graph query API.

`app/` holds the program around it: clap, the file system, git, ripgrep,
threads, serde and the floating-point timing report.
