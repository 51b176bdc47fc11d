use vstd::prelude::*;
use sha2::Digest;
use vstd::string::StringSliceAdditionalSpecFns;
use crate::analysis::codepaths::graph::{graph_wf, language_local, law_merge_language_local, graphs_view, merged_spec, total_nodes, empty_graph, empty_graph_view,
    merge_graphs, lemma_merged_wf};
use crate::analysis::codepaths::types::{FileArtifactV, CallGraphV, CallGraph, GraphNode, GraphEdge, GraphReference, Language, FileArtifact, cache_key_of, all_languages, rank_of};
use crate::analysis::codepaths::graph::{InternalFile, InternalFileV, files_view, by_path};
use crate::analysis::codepaths::sources::{SourceFile, language_for_path, language_of_path};
use crate::analysis::{is_test_file, is_test_path};
use crate::strsets::{strictly_sorted, set_of, insert_sorted};
use crate::text::{seq_lt, str_lt, lemma_seq_lt_transitive, lemma_seq_lt_total, lemma_seq_lt_irreflexive,
    lemma_seq_lt_asymmetric};
use crate::analysis::codepaths::types::{strings_view, clone_strings, lemma_strings_view_push};
use crate::text::{utf8_lossy, utf8_text, lossy_text, seq_starts_with, seq_ends_with, str_starts_with};
use vstd::utf8::{valid_utf8, decode_utf8};
use vstd::utf8::encode_utf8;
use crate::paths::{joined_path, path_join};
use crate::query_data::QueryCachePayload;
use crate::timing::{TimingCollector, SUMMED_STAGES};
use crate::analysis::codepaths::parsing::{extract_from_source, file_artifact_spec};
use crate::text::{owned, concat, push_str, push_char, empty_string, str_eq, string_from_range, chars_of};

verus! {

/// How a graph was obtained.
#[derive(Debug, Clone, Copy, PartialEq, Eq, Structural)]
pub enum LoadGraphMode {
    Reused,
    Incremental,
    FullRebuild,
}

/// The artifact of a source file: its functions, with the SHA-256 of its
/// text in hexadecimal as its hash; none when it does not parse.
pub fn file_artifact(source: &str, relative_path: &str, include_tests: bool, language: Language)
    -> (res: Option<FileArtifact>)
    ensures
        match res {
            Some(a) => file_artifact_spec(source@, relative_path@, include_tests, language) matches Some(f)
                && a@ == (FileArtifactV { source_hash: hex_of(sha256_of(encode_utf8(source@))), ..f }),
            None => file_artifact_spec(source@, relative_path@, include_tests, language) is None,
        },
{
    match extract_from_source(source, relative_path, include_tests, language) {
        Some(artifact) => {
            let hash = hex_hash(source.as_bytes());
            let FileArtifact { source_hash: _, functions } = artifact;
            Some(FileArtifact { source_hash: hash, functions })
        },
        None => None,
    }
}

/// How a graph was obtained, and which files were parsed anew.
pub struct LoadGraphOutcome {
    pub mode: LoadGraphMode,
    pub changed_files: Vec<String>,
}

pub struct LoadGraphResult {
    pub graph: CallGraph,
    pub outcome: LoadGraphOutcome,
}

pub struct LoadQueryResult {
    pub payload: QueryCachePayload,
    pub outcome: LoadGraphOutcome,
}

/// How much work a mode stands for: a full rebuild over an incremental
/// one over a reuse.
pub open spec fn mode_weight(m: LoadGraphMode) -> nat {
    match m {
        LoadGraphMode::Reused => 0,
        LoadGraphMode::Incremental => 1,
        LoadGraphMode::FullRebuild => 2,
    }
}

/// The heavier of two modes.
pub open spec fn heavier_mode(a: LoadGraphMode, b: LoadGraphMode) -> LoadGraphMode {
    if mode_weight(a) >= mode_weight(b) { a } else { b }
}

/// Law: taking modes together is commutative, associative and idempotent;
/// a reuse changes nothing and a full rebuild outweighs everything, so the
/// order in which languages are loaded never changes the overall mode.
pub proof fn law_merge_mode(a: LoadGraphMode, b: LoadGraphMode, c: LoadGraphMode)
    ensures
        heavier_mode(a, b) == heavier_mode(b, a),
        heavier_mode(heavier_mode(a, b), c) == heavier_mode(a, heavier_mode(b, c)),
        heavier_mode(a, a) == a,
        heavier_mode(LoadGraphMode::Reused, a) == a,
        heavier_mode(LoadGraphMode::FullRebuild, a) == LoadGraphMode::FullRebuild,
{
}

/// The mode of two loads taken together: the heavier of the two.
pub fn merge_mode(current: LoadGraphMode, next: LoadGraphMode) -> (res: LoadGraphMode)
    ensures
        res == heavier_mode(current, next),
{
    match (current, next) {
        (LoadGraphMode::FullRebuild, _) | (_, LoadGraphMode::FullRebuild) => LoadGraphMode::FullRebuild,
        (LoadGraphMode::Incremental, _) | (_, LoadGraphMode::Incremental) => LoadGraphMode::Incremental,
        _ => LoadGraphMode::Reused,
    }
}

// ---------------------------------------------------------------------
// Where the caches live
// ---------------------------------------------------------------------

/// The version of the cache files' format.
pub const SCHEMA_VERSION: u32 = 5;

pub open spec fn suffix_of(include_tests: bool) -> Seq<char> {
    if include_tests { "with-tests"@ } else { "prod"@ }
}

fn suffix(include_tests: bool) -> (res: &'static str)
    ensures
        res@ == suffix_of(include_tests),
{
    if include_tests { "with-tests" } else { "prod" }
}

/// `codepaths.v5.<language>.<suffix><ending>`.
pub open spec fn language_file_name(include_tests: bool, language: Language, ending: Seq<char>) -> Seq<char> {
    "codepaths.v5."@ + cache_key_of(language) + "."@ + suffix_of(include_tests) + ending
}

fn language_file(cache_dir: &str, include_tests: bool, language: Language, ending: &str) -> (res: String)
    ensures
        res@ == joined_path(cache_dir@, language_file_name(include_tests, language, ending@)),
{
    let mut name = owned("codepaths.v5.");
    push_str(&mut name, language.cache_key());
    push_str(&mut name, ".");
    push_str(&mut name, suffix(include_tests));
    push_str(&mut name, ending);
    path_join(cache_dir, name.as_str())
}

/// Joining a directory with two names gives one path only for one name.
proof fn lemma_joined_path_injective(dir: Seq<char>, x: Seq<char>, y: Seq<char>)
    ensures
        joined_path(dir, x) == joined_path(dir, y) ==> x == y,
{
    let pre = if dir.len() == 0 { Seq::<char>::empty() } else if seq_ends_with(dir, "/"@) { dir } else { dir + "/"@ };
    assert(joined_path(dir, x) =~= pre + x);
    assert(joined_path(dir, y) =~= pre + y);
    if joined_path(dir, x) == joined_path(dir, y) {
        assert(x =~= (pre + x).skip(pre.len() as int));
        assert(y =~= (pre + y).skip(pre.len() as int));
    }
}

/// Law: each language, with tests and without, has cache files of its
/// own: two different settings never name the same file.
pub proof fn law_cache_files_distinct(cache_dir: Seq<char>, tests_a: bool, a: Language, tests_b: bool, b: Language,
    ending: Seq<char>)
    requires
        tests_a != tests_b || a != b,
    ensures
        joined_path(cache_dir, language_file_name(tests_a, a, ending))
            != joined_path(cache_dir, language_file_name(tests_b, b, ending)),
{
    reveal_strlit("codepaths.v5.");
    reveal_strlit(".");
    reveal_strlit("prod");
    reveal_strlit("with-tests");
    reveal_strlit("rust");
    reveal_strlit("python");
    reveal_strlit("javascript");
    reveal_strlit("jsx");
    reveal_strlit("svelte");
    reveal_strlit("typescript");
    reveal_strlit("tsx");
    let na = language_file_name(tests_a, a, ending);
    let nb = language_file_name(tests_b, b, ending);
    lemma_joined_path_injective(cache_dir, na, nb);
    if na == nb {
        let ka = cache_key_of(a);
        let kb = cache_key_of(b);
        assert(na[13] == ka[0] && na[14] == ka[1]);
        assert(nb[13] == kb[0] && nb[14] == kb[1]);
        if a != b {
            assert(false);
        } else {
            let k: int = 13 + ka.len() as int + 1;
            assert(na[k] == suffix_of(tests_a)[0]);
            assert(nb[k] == suffix_of(tests_b)[0]);
        }
    }
}

/// The cached graph of one language.
pub fn graph_cache_path(cache_dir: &str, include_tests: bool, language: Language) -> (res: String)
    ensures
        res@ == joined_path(cache_dir@, language_file_name(include_tests, language, ".graph"@)),
{
    language_file(cache_dir, include_tests, language, ".graph")
}

/// The cached per-file artifacts of one language.
pub fn state_cache_path(cache_dir: &str, include_tests: bool, language: Language) -> (res: String)
    ensures
        res@ == joined_path(cache_dir@, language_file_name(include_tests, language, ".state.json"@)),
{
    language_file(cache_dir, include_tests, language, ".state.json")
}

/// The summary of one language's cached artifacts.
pub fn state_metadata_path(cache_dir: &str, include_tests: bool, language: Language) -> (res: String)
    ensures
        res@ == joined_path(cache_dir@, language_file_name(include_tests, language, ".state-meta.json"@)),
{
    language_file(cache_dir, include_tests, language, ".state-meta.json")
}

/// The cached query indexes.
pub fn query_cache_path(cache_dir: &str, include_tests: bool) -> (res: String)
    ensures
        res@ == joined_path(cache_dir@, "query-cache.v5."@ + suffix_of(include_tests) + ".bin"@),
{
    let mut name = owned("query-cache.v5.");
    push_str(&mut name, suffix(include_tests));
    push_str(&mut name, ".bin");
    path_join(cache_dir, name.as_str())
}

/// The summary of the cached query indexes.
pub fn query_cache_metadata_path(cache_dir: &str, include_tests: bool) -> (res: String)
    ensures
        res@ == joined_path(cache_dir@, "query-cache.v5."@ + suffix_of(include_tests) + ".meta.json"@),
{
    let mut name = owned("query-cache.v5.");
    push_str(&mut name, suffix(include_tests));
    push_str(&mut name, ".meta.json");
    path_join(cache_dir, name.as_str())
}

// ---------------------------------------------------------------------
// Hashes
// ---------------------------------------------------------------------

/// The SHA-256 digest of some bytes.
pub uninterp spec fn sha256_of(bytes: Seq<u8>) -> Seq<u8>;

/// The SHA-256 digest of some bytes (`sha2::Sha256::digest`): a function of
/// the bytes alone, 32 bytes long.
#[verifier::external_body]
pub(crate) fn sha256_digest(bytes: &[u8]) -> (res: Vec<u8>)
    ensures
        res@ == sha256_of(bytes@),
        res@.len() == 32,
{
    sha2::Sha256::digest(bytes).to_vec()
}

pub open spec fn hex_digit(d: int) -> char {
    if d < 10 { ((d + 48) as u8) as char } else { ((d + 87) as u8) as char }
}

/// Each byte as two lowercase hexadecimal digits.
pub open spec fn hex_of(bytes: Seq<u8>) -> Seq<char>
    decreases bytes.len(),
{
    if bytes.len() == 0 {
        Seq::empty()
    } else {
        hex_of(bytes.drop_last()) + seq![hex_digit((bytes.last() / 16) as int), hex_digit((bytes.last() % 16) as int)]
    }
}

fn hex_char(d: u8) -> (c: char)
    requires
        d < 16,
    ensures
        c == hex_digit(d as int),
{
    if d < 10 { (d + 48) as char } else { (d + 87) as char }
}

/// Bytes as lowercase hexadecimal.
pub fn hex_string(bytes: &[u8]) -> (res: String)
    ensures
        res@ == hex_of(bytes@),
{
    let mut out = empty_string();
    let mut i: usize = 0;
    while i < bytes.len()
        invariant
            i <= bytes@.len(),
            out@ == hex_of(bytes@.take(i as int)),
        decreases bytes@.len() - i,
    {
        let b = bytes[i];
        push_char(&mut out, hex_char(b / 16));
        push_char(&mut out, hex_char(b % 16));
        assert(bytes@.take(i + 1).drop_last() =~= bytes@.take(i as int));
        i = i + 1;
        assert(out@ =~= hex_of(bytes@.take(i as int)));
    }
    assert(bytes@.take(bytes@.len() as int) =~= bytes@);
    out
}

/// The SHA-256 digest of some bytes, in hexadecimal.
pub fn hex_hash(bytes: &[u8]) -> (res: String)
    ensures
        res@ == hex_of(sha256_of(bytes@)),
        sha256_of(bytes@).len() == 32,
{
    let digest = sha256_digest(bytes);
    hex_string(digest.as_slice())
}

/// The directory of one repository's caches: `<name>-<hash>`, the name
/// being the repository directory's (or `repo`) and the hash the first 16
/// hexadecimal digits of the SHA-256 digest of its path.
pub open spec fn repo_cache_dir_of(cache_root: Seq<char>, repo_key: Seq<u8>, file_name: Option<Seq<char>>) -> Seq<char> {
    let slug = match file_name {
        Some(n) if n.len() > 0 => n,
        _ => "repo"@,
    };
    joined_path(cache_root, slug + "-"@ + hex_of(sha256_of(repo_key)).take(16))
}

pub fn repo_cache_dir(cache_root: &str, repo_key: &str, file_name: Option<&str>) -> (res: String)
    ensures
        res@ == repo_cache_dir_of(cache_root@, repo_key.spec_bytes(),
            match file_name { Some(n) => Some(n@), None => None }),
{
    let slug: &str = match file_name {
        Some(n) => if !n.is_empty() { n } else { "repo" },
        None => "repo",
    };
    let hash = hex_hash(repo_key.as_bytes());
    let chars = chars_of(hash.as_str());
    assert(hex_of(sha256_of(repo_key.spec_bytes())).len() == 64) by {
        lemma_hex_len(sha256_of(repo_key.spec_bytes()));
    }
    let short = string_from_range(chars.as_slice(), 0, 16);
    let mut name = concat(slug, "-");
    push_str(&mut name, short.as_str());
    assert(short@ =~= hex_of(sha256_of(repo_key.spec_bytes())).take(16));
    path_join(cache_root, name.as_str())
}

/// Where one repository's caches live: under the directory the
/// environment names, when it is set and not empty, in a directory of the
/// repository's own (`repo_cache_dir_of`); or else in `.git/tracegrep`
/// inside the repository.
pub open spec fn cache_dir_of(env_dir: Option<Seq<char>>, repo_path: Seq<char>, repo_key: Seq<u8>,
    file_name: Option<Seq<char>>) -> Seq<char>
{
    match env_dir {
        Some(d) if d.len() > 0 => repo_cache_dir_of(d, repo_key, file_name),
        _ => joined_path(joined_path(repo_path, ".git"@), "tracegrep"@),
    }
}

/// The directory of one repository's caches; `repo_path` is the
/// repository's path and `file_name` its last component.
pub fn cache_dir(env_dir: Option<&str>, repo_path: &str, file_name: Option<&str>) -> (res: String)
    ensures
        res@ == cache_dir_of(match env_dir { Some(d) => Some(d@), None => None }, repo_path@,
            repo_path.spec_bytes(), match file_name { Some(n) => Some(n@), None => None }),
{
    match env_dir {
        Some(d) => {
            if !d.is_empty() {
                return repo_cache_dir(d, repo_path, file_name);
            }
        },
        None => {},
    }
    let git = path_join(repo_path, ".git");
    path_join(git.as_str(), "tracegrep")
}

/// Law: unless the environment names a cache directory, every cache file
/// of a repository lies in its `.git/tracegrep` directory, one file for
/// each language and setting.
pub proof fn law_default_cache_in_git_dir(env_dir: Option<Seq<char>>, repo_path: Seq<char>, repo_key: Seq<u8>,
    file_name: Option<Seq<char>>, include_tests: bool, language: Language, ending: Seq<char>)
    requires
        !(env_dir matches Some(d) && d.len() > 0),
    ensures
        ({
            let dir = joined_path(joined_path(repo_path, ".git"@), "tracegrep"@);
            &&& cache_dir_of(env_dir, repo_path, repo_key, file_name) == dir
            &&& joined_path(dir, language_file_name(include_tests, language, ending))
                == dir + "/"@ + language_file_name(include_tests, language, ending)
        }),
{
    reveal_strlit("tracegrep");
    reveal_strlit("/");
    let dir = joined_path(joined_path(repo_path, ".git"@), "tracegrep"@);
    let base = joined_path(repo_path, ".git"@);
    assert(dir.len() > 0);
    assert(dir.last() == 'p') by {
        if base.len() == 0 {
            assert(dir == "tracegrep"@);
        } else if seq_ends_with(base, "/"@) {
            assert(dir == base + "tracegrep"@);
        } else {
            assert(dir == base + "/"@ + "tracegrep"@);
        }
    }
    assert(!seq_ends_with(dir, "/"@)) by {
        if seq_ends_with(dir, "/"@) {
            assert(dir.subrange(dir.len() - 1, dir.len() as int) == "/"@);
            assert(dir.subrange(dir.len() - 1, dir.len() as int)[0] == dir.last());
        }
    }
}

proof fn lemma_hex_len(bytes: Seq<u8>)
    ensures
        hex_of(bytes).len() == 2 * bytes.len(),
    decreases bytes.len(),
{
    if bytes.len() > 0 {
        lemma_hex_len(bytes.drop_last());
    }
}

// ---------------------------------------------------------------------
// What the caches record
// ---------------------------------------------------------------------

/// The cached artifacts of one language's files.
pub struct CacheState {
    pub schema_version: u32,
    pub repo_path: String,
    pub include_tests: bool,
    pub language: Language,
    pub head: String,
    /// By relative path, in path order.
    pub files: Vec<InternalFile>,
}

/// A summary of one language's cached artifacts.
pub struct StateMetadata {
    pub schema_version: u32,
    pub repo_path: String,
    pub include_tests: bool,
    pub language: Language,
    pub head: String,
    pub content_fingerprint: String,
    pub file_count: usize,
}

/// A summary of the cached query indexes.
pub struct QueryCacheMetadata {
    pub schema_version: u32,
    pub repo_path: String,
    pub include_tests: bool,
    pub head: String,
    pub state_fingerprint: String,
}

impl StateMetadata {
    /// A copy of the summary.
    pub fn copy(&self) -> (res: StateMetadata)
        ensures
            res == *self,
    {
        StateMetadata {
            schema_version: self.schema_version,
            repo_path: self.repo_path.clone(),
            include_tests: self.include_tests,
            language: self.language,
            head: self.head.clone(),
            content_fingerprint: self.content_fingerprint.clone(),
            file_count: self.file_count,
        }
    }
}

/// The bytes the fingerprint of some files is the digest of: each path
/// and source hash, each followed by a zero byte.
pub open spec fn files_bytes(files: Seq<InternalFileV>) -> Seq<u8>
    decreases files.len(),
{
    if files.len() == 0 {
        Seq::empty()
    } else {
        let f = files.last();
        files_bytes(files.drop_last()) + encode_utf8(f.path) + seq![0u8] + encode_utf8(f.artifact.source_hash)
            + seq![0u8]
    }
}

/// Appends the bytes of a string and a zero byte.
fn push_field(out: &mut Vec<u8>, text: &str)
    ensures
        final(out)@ == old(out)@ + encode_utf8(text@) + seq![0u8],
{
    let bytes = text.as_bytes();
    let mut i: usize = 0;
    let ghost start = out@;
    while i < bytes.len()
        invariant
            i <= bytes@.len(),
            bytes@ == encode_utf8(text@),
            out@ == start + bytes@.take(i as int),
        decreases bytes@.len() - i,
    {
        out.push(bytes[i]);
        i = i + 1;
        assert(out@ =~= start + bytes@.take(i as int));
    }
    assert(bytes@.take(bytes@.len() as int) =~= bytes@);
    out.push(0u8);
}

/// The fingerprint of some files: the SHA-256 digest, in hexadecimal, of
/// their paths and source hashes.
pub fn files_fingerprint(files: &Vec<InternalFile>) -> (res: String)
    ensures
        res@ == hex_of(sha256_of(files_bytes(files_view(files@)))),
{
    let mut bytes: Vec<u8> = Vec::new();
    let mut i: usize = 0;
    while i < files.len()
        invariant
            i <= files@.len(),
            bytes@ == files_bytes(files_view(files@).take(i as int)),
        decreases files@.len() - i,
    {
        push_field(&mut bytes, files[i].path.as_str());
        push_field(&mut bytes, files[i].artifact.source_hash.as_str());
        assert(files_view(files@).take(i + 1).drop_last() =~= files_view(files@).take(i as int));
        i = i + 1;
        assert(bytes@ =~= files_bytes(files_view(files@).take(i as int)));
    }
    assert(files_view(files@).take(files@.len() as int) =~= files_view(files@));
    hex_hash(bytes.as_slice())
}

/// The bytes the combined fingerprint of some summaries is the digest
/// of: each language's key and content fingerprint, each followed by a
/// zero byte.
pub open spec fn metas_bytes(metas: Seq<StateMetadata>) -> Seq<u8>
    decreases metas.len(),
{
    if metas.len() == 0 {
        Seq::empty()
    } else {
        let m = metas.last();
        metas_bytes(metas.drop_last()) + encode_utf8(cache_key_of(m.language)) + seq![0u8]
            + encode_utf8(m.content_fingerprint@) + seq![0u8]
    }
}

/// The fingerprint of all languages' cached artifacts.
pub fn combined_state_fingerprint(metas: &Vec<StateMetadata>) -> (res: String)
    ensures
        res@ == hex_of(sha256_of(metas_bytes(metas@))),
{
    let mut bytes: Vec<u8> = Vec::new();
    let mut i: usize = 0;
    while i < metas.len()
        invariant
            i <= metas@.len(),
            bytes@ == metas_bytes(metas@.take(i as int)),
        decreases metas@.len() - i,
    {
        push_field(&mut bytes, metas[i].language.cache_key());
        push_field(&mut bytes, metas[i].content_fingerprint.as_str());
        assert(metas@.take(i + 1).drop_last() =~= metas@.take(i as int));
        i = i + 1;
        assert(bytes@ =~= metas_bytes(metas@.take(i as int)));
    }
    assert(metas@.take(metas@.len() as int) =~= metas@);
    hex_hash(bytes.as_slice())
}

/// The summary of a language's cached artifacts.
pub fn state_metadata_from_state(state: &CacheState) -> (res: StateMetadata)
    ensures
        res.schema_version == SCHEMA_VERSION,
        res.repo_path@ == state.repo_path@,
        res.include_tests == state.include_tests,
        res.language == state.language,
        res.head@ == state.head@,
        res.content_fingerprint@ == hex_of(sha256_of(files_bytes(files_view(state.files@)))),
        res.file_count == state.files@.len(),
{
    StateMetadata {
        schema_version: SCHEMA_VERSION,
        repo_path: state.repo_path.clone(),
        include_tests: state.include_tests,
        language: state.language,
        head: state.head.clone(),
        content_fingerprint: files_fingerprint(&state.files),
        file_count: state.files.len(),
    }
}

/// Whether a language's cache was written by this version, for this
/// repository and these settings.
pub fn compatible_state_metadata(meta: &StateMetadata, repo_path: &str, include_tests: bool, language: Language)
    -> (res: bool)
    ensures
        res == (meta.schema_version == SCHEMA_VERSION && meta.repo_path@ == repo_path@
            && meta.include_tests == include_tests && meta.language == language),
{
    meta.schema_version == SCHEMA_VERSION && str_eq(meta.repo_path.as_str(), repo_path)
        && meta.include_tests == include_tests && meta.language == language
}

/// Whether the query cache was written by this version, for this
/// repository and these settings.
pub fn compatible_query_metadata(meta: &QueryCacheMetadata, repo_path: &str, include_tests: bool) -> (res: bool)
    ensures
        res == (meta.schema_version == SCHEMA_VERSION && meta.repo_path@ == repo_path@
            && meta.include_tests == include_tests),
{
    meta.schema_version == SCHEMA_VERSION && str_eq(meta.repo_path.as_str(), repo_path)
        && meta.include_tests == include_tests
}

/// What a stored query cache is worth once its summary has been read.
#[derive(Debug, Clone, Copy, PartialEq, Eq, Structural)]
pub enum QueryCacheVerdict {
    /// It was written for other settings or another state: build anew.
    Stale,
    /// It answers for the current state; its summary names an earlier
    /// commit when `rewrite_head` holds.
    Fresh { rewrite_head: bool },
}

/// Whether a stored query cache answers for the current state: written by
/// this version, for this repository and these settings, over the same
/// language caches; and whether its summary must be rewritten at the
/// current commit.
pub fn query_cache_verdict(meta: &QueryCacheMetadata, repo_path: &str, include_tests: bool,
    state_fingerprint: &str, current_head: &str) -> (res: QueryCacheVerdict)
    ensures
        res == (if meta.schema_version == SCHEMA_VERSION && meta.repo_path@ == repo_path@
            && meta.include_tests == include_tests && meta.state_fingerprint@ == state_fingerprint@ {
            QueryCacheVerdict::Fresh { rewrite_head: meta.head@ != current_head@ }
        } else {
            QueryCacheVerdict::Stale
        }),
{
    if compatible_query_metadata(meta, repo_path, include_tests)
        && str_eq(meta.state_fingerprint.as_str(), state_fingerprint) {
        QueryCacheVerdict::Fresh { rewrite_head: !str_eq(meta.head.as_str(), current_head) }
    } else {
        QueryCacheVerdict::Stale
    }
}

/// The summary of the query cache to write.
pub fn query_cache_metadata_from(repo_path: &str, include_tests: bool, current_head: &str, state_fingerprint: String)
    -> (res: QueryCacheMetadata)
    ensures
        res.schema_version == SCHEMA_VERSION,
        res.repo_path@ == repo_path@,
        res.include_tests == include_tests,
        res.head@ == current_head@,
        res.state_fingerprint == state_fingerprint,
{
    QueryCacheMetadata {
        schema_version: SCHEMA_VERSION,
        repo_path: owned(repo_path),
        include_tests,
        head: owned(current_head),
        state_fingerprint,
    }
}

/// Whether a changed file matters to a language's graph.
pub open spec fn relevant(path: Seq<char>, include_tests: bool, language: Language) -> bool {
    language_of_path(path) == Some(language) && (include_tests || !is_test_path(path))
}

pub fn is_relevant_path(path: &str, include_tests: bool, language: Language) -> (res: bool)
    ensures
        res == relevant(path@, include_tests, language),
{
    match language_for_path(path) {
        Some(l) => l == language && (include_tests || !is_test_file(path)),
        None => false,
    }
}

// ---------------------------------------------------------------------
// What git says changed
// ---------------------------------------------------------------------

/// The runs of non-zero bytes, in order.
pub open spec fn nonzero_runs(b: Seq<u8>) -> Seq<Seq<u8>> {
    runs_from(b, 0, Seq::empty())
}

/// The runs from byte `i` on, the current run being `cur`.
pub open spec fn runs_from(b: Seq<u8>, i: int, cur: Seq<u8>) -> Seq<Seq<u8>>
    decreases b.len() - i,
{
    if i < 0 || i >= b.len() {
        if cur.len() > 0 { seq![cur] } else { Seq::empty() }
    } else if b[i] == 0 {
        (if cur.len() > 0 { seq![cur] } else { Seq::empty() }) + runs_from(b, i + 1, Seq::empty())
    } else {
        runs_from(b, i + 1, cur.push(b[i]))
    }
}

/// The paths of `git diff --name-status -z` from part `i` on: a status,
/// then one path, or two for a rename or a copy; an incomplete record at
/// the end is dropped.
pub open spec fn status_paths(parts: Seq<Seq<u8>>, i: int) -> Seq<Seq<char>>
    decreases parts.len() - i,
{
    if i < 0 || i >= parts.len() {
        Seq::empty()
    } else {
        let status = lossy_text(parts[i]);
        if seq_starts_with(status, "R"@) || seq_starts_with(status, "C"@) {
            if i + 2 < parts.len() {
                seq![lossy_text(parts[i + 1]), lossy_text(parts[i + 2])] + status_paths(parts, i + 3)
            } else {
                Seq::empty()
            }
        } else if i + 1 < parts.len() {
            seq![lossy_text(parts[i + 1])] + status_paths(parts, i + 2)
        } else {
            Seq::empty()
        }
    }
}

/// The runs of non-zero bytes of some output.
fn split_nonzero(output: &[u8]) -> (res: Vec<Vec<u8>>)
    ensures
        res@.map_values(|p: Vec<u8>| p@) == nonzero_runs(output@),
{
    let mut res: Vec<Vec<u8>> = Vec::new();
    let mut cur: Vec<u8> = Vec::new();
    let mut i: usize = 0;
    assert(res@.map_values(|p: Vec<u8>| p@) =~= Seq::<Seq<u8>>::empty());
    while i < output.len()
        invariant
            i <= output@.len(),
            res@.map_values(|p: Vec<u8>| p@) + runs_from(output@, i as int, cur@) == nonzero_runs(output@),
        decreases output@.len() - i,
    {
        let ghost before = res@.map_values(|p: Vec<u8>| p@);
        if output[i] == 0 {
            if cur.len() > 0 {
                let done = cur;
                res.push(done);
                assert(res@.map_values(|p: Vec<u8>| p@) =~= before + seq![done@]);
            }
            cur = Vec::new();
            assert(res@.map_values(|p: Vec<u8>| p@) + runs_from(output@, i + 1, cur@) =~= nonzero_runs(output@));
        } else {
            cur.push(output[i]);
        }
        i = i + 1;
    }
    if cur.len() > 0 {
        let ghost before = res@.map_values(|p: Vec<u8>| p@);
        let done = cur;
        res.push(done);
        assert(res@.map_values(|p: Vec<u8>| p@) =~= before + seq![done@]);
    }
    assert(res@.map_values(|p: Vec<u8>| p@) =~= nonzero_runs(output@));
    res
}

/// The paths that `git diff --name-status -z` lists.
pub fn parse_name_status_z(output: &[u8]) -> (res: Vec<String>)
    ensures
        strings_view(res@) == status_paths(nonzero_runs(output@), 0),
{
    let parts = split_nonzero(output);
    let ghost pv = parts@.map_values(|p: Vec<u8>| p@);
    let mut changed: Vec<String> = Vec::new();
    let mut i: usize = 0;
    while i < parts.len()
        invariant
            pv == parts@.map_values(|p: Vec<u8>| p@),
            i <= parts@.len() + 1,
            strings_view(changed@) + status_paths(pv, i as int) == status_paths(pv, 0),
        decreases parts@.len() + 1 - i,
    {
        let status = utf8_lossy(parts[i].as_slice());
        assert(status@ == lossy_text(pv[i as int]));
        let ghost before = strings_view(changed@);
        if str_starts_with(status.as_str(), "R") || str_starts_with(status.as_str(), "C") {
            if parts.len() - i <= 2 {
                assert(status_paths(pv, i as int) =~= Seq::<Seq<char>>::empty());
                i = parts.len();
                continue;
            }
            let old_path = utf8_lossy(parts[i + 1].as_slice());
            let new_path = utf8_lossy(parts[i + 2].as_slice());
            changed.push(old_path);
            changed.push(new_path);
            assert(strings_view(changed@) =~= before + seq![lossy_text(pv[i + 1]), lossy_text(pv[i + 2])]);
            i = i + 3;
        } else {
            if parts.len() - i <= 1 {
                assert(status_paths(pv, i as int) =~= Seq::<Seq<char>>::empty());
                i = parts.len();
                continue;
            }
            let path = utf8_lossy(parts[i + 1].as_slice());
            changed.push(path);
            assert(strings_view(changed@) =~= before + seq![lossy_text(pv[i + 1])]);
            i = i + 2;
        }
    }
    assert(strings_view(changed@) =~= status_paths(pv, 0));
    changed
}

/// The paths that `git ls-files --others -z` lists: its non-empty parts
/// that are UTF-8, in order; a part that is not UTF-8 is left out.
pub open spec fn untracked_paths_of(parts: Seq<Seq<u8>>) -> Seq<Seq<char>>
    decreases parts.len(),
{
    if parts.len() == 0 {
        Seq::empty()
    } else {
        let rest = untracked_paths_of(parts.drop_last());
        if valid_utf8(parts.last()) { rest.push(decode_utf8(parts.last())) } else { rest }
    }
}

/// The untracked paths of `git ls-files --others --exclude-standard -z`.
pub fn parse_untracked_z(output: &[u8]) -> (res: Vec<String>)
    ensures
        strings_view(res@) == untracked_paths_of(nonzero_runs(output@)),
{
    let parts = split_nonzero(output);
    let ghost pv = parts@.map_values(|p: Vec<u8>| p@);
    let mut paths: Vec<String> = Vec::new();
    let mut i: usize = 0;
    while i < parts.len()
        invariant
            pv == parts@.map_values(|p: Vec<u8>| p@),
            i <= parts@.len(),
            strings_view(paths@) == untracked_paths_of(pv.take(i as int)),
        decreases parts@.len() - i,
    {
        assert(pv.take(i + 1).drop_last() =~= pv.take(i as int));
        assert(pv.take(i + 1).last() == pv[i as int]);
        match utf8_text(parts[i].as_slice()) {
            Some(path) => {
                proof { lemma_strings_view_push(paths@, path); }
                paths.push(path);
            },
            None => {},
        }
        i = i + 1;
    }
    assert(pv.take(parts@.len() as int) =~= pv);
    paths
}

/// Whether the commits since the head the caches share must be asked
/// for: only where there is such a head and it is not the current one.
pub open spec fn needs_committed_diff(shared_previous_head: Option<Seq<char>>, current_head: Seq<char>) -> bool {
    match shared_previous_head {
        Some(previous) => previous != current_head,
        None => false,
    }
}

/// The head to diff the current one against, where the commits between
/// them must be asked for.
pub fn committed_diff_base(shared_previous_head: Option<&str>, current_head: &str) -> (res: Option<String>)
    ensures
        res is Some <==> needs_committed_diff(
            match shared_previous_head { Some(p) => Some(p@), None => None }, current_head@),
        res matches Some(base) ==> shared_previous_head matches Some(p) && base@ == p@,
{
    match shared_previous_head {
        Some(previous) => {
            if str_eq(previous, current_head) {
                None
            } else {
                Some(owned(previous))
            }
        },
        None => None,
    }
}

/// What git says of the work tree: the current commit, the commit the
/// caches share (if one), and the paths changed by commits since then, in
/// the work tree, and not tracked.
pub struct RepoStatusSnapshot {
    pub current_head: String,
    pub shared_previous_head: Option<String>,
    pub committed_paths: Vec<String>,
    pub dirty_paths: Vec<String>,
    pub untracked_paths: Vec<String>,
}

/// The paths of a list that matter to a language's graph.
pub open spec fn relevant_set(paths: Seq<String>, include_tests: bool, language: Language) -> Set<Seq<char>> {
    Set::new(|p: Seq<char>| exists|i: int| 0 <= i < paths.len() && (#[trigger] paths[i])@ == p && relevant(p, include_tests, language))
}

/// The files that must be parsed anew for a cache written at `state_head`:
/// the relevant changed files, sorted, once each; none known when the
/// cache is from another commit than the one the others share.
pub open spec fn changed_files_spec(snap: &RepoStatusSnapshot, state_head: Seq<char>, include_tests: bool,
    language: Language) -> Option<Set<Seq<char>>>
{
    let local = relevant_set(snap.dirty_paths@, include_tests, language)
        + relevant_set(snap.untracked_paths@, include_tests, language);
    if state_head == snap.current_head@ {
        Some(local)
    } else if match snap.shared_previous_head { Some(h) => h@ != state_head, None => true } {
        None
    } else {
        Some(local + relevant_set(snap.committed_paths@, include_tests, language))
    }
}

/// Adds the relevant paths of a list to a sorted set.
fn add_relevant(out: &mut Vec<String>, paths: &Vec<String>, include_tests: bool, language: Language)
    requires
        strictly_sorted(strings_view(old(out)@)),
    ensures
        strictly_sorted(strings_view(final(out)@)),
        set_of(strings_view(final(out)@)) == set_of(strings_view(old(out)@)) + relevant_set(paths@, include_tests, language),
{
    let ghost start = set_of(strings_view(out@));
    let mut i: usize = 0;
    while i < paths.len()
        invariant
            i <= paths@.len(),
            strictly_sorted(strings_view(out@)),
            set_of(strings_view(out@)) == start + relevant_set(paths@.take(i as int), include_tests, language),
        decreases paths@.len() - i,
    {
        let ghost before = set_of(strings_view(out@));
        if is_relevant_path(paths[i].as_str(), include_tests, language) {
            insert_sorted(out, paths[i].clone());
        }
        proof {
            let next = relevant_set(paths@.take(i + 1), include_tests, language);
            let prev = relevant_set(paths@.take(i as int), include_tests, language);
            assert forall|p: Seq<char>| next.contains(p) <==> (prev.contains(p)
                || (p == paths@[i as int]@ && relevant(p, include_tests, language))) by {
                if next.contains(p) {
                    let j = choose|j: int| 0 <= j < i + 1 && (#[trigger] paths@.take(i + 1)[j])@ == p && relevant(p, include_tests, language);
                    if j < i {
                        assert(paths@.take(i as int)[j] == paths@.take(i + 1)[j]);
                    }
                }
                if prev.contains(p) {
                    let j = choose|j: int| 0 <= j < i && (#[trigger] paths@.take(i as int)[j])@ == p && relevant(p, include_tests, language);
                    assert(paths@.take(i + 1)[j] == paths@.take(i as int)[j]);
                }
                if p == paths@[i as int]@ && relevant(p, include_tests, language) {
                    assert(paths@.take(i + 1)[i as int] == paths@[i as int]);
                }
            }
            assert(set_of(strings_view(out@)) =~= start + next);
        }
        i = i + 1;
    }
    assert(paths@.take(paths@.len() as int) =~= paths@);
}

impl RepoStatusSnapshot {
    /// The snapshot made of what git printed: `committed_output` is that of
    /// `git diff --name-status -z <base> <current>`, read only where
    /// `committed_diff_base` names a base; `dirty_output` that of
    /// `git diff --name-status -z HEAD`; `untracked_output` that of
    /// `git ls-files --others --exclude-standard -z`.
    pub fn from_git_output(current_head: &str, shared_previous_head: Option<&str>, committed_output: &[u8],
        dirty_output: &[u8], untracked_output: &[u8]) -> (res: RepoStatusSnapshot)
        ensures
            res.current_head@ == current_head@,
            res.shared_previous_head.is_some() == shared_previous_head.is_some(),
            res.shared_previous_head matches Some(h) ==> shared_previous_head matches Some(p) && h@ == p@,
            strings_view(res.committed_paths@) == (if needs_committed_diff(
                match shared_previous_head { Some(p) => Some(p@), None => None }, current_head@) {
                status_paths(nonzero_runs(committed_output@), 0)
            } else {
                Seq::empty()
            }),
            strings_view(res.dirty_paths@) == status_paths(nonzero_runs(dirty_output@), 0),
            strings_view(res.untracked_paths@) == untracked_paths_of(nonzero_runs(untracked_output@)),
    {
        let committed_paths = match committed_diff_base(shared_previous_head, current_head) {
            Some(_) => parse_name_status_z(committed_output),
            None => {
                let v: Vec<String> = Vec::new();
                assert(strings_view(v@) =~= Seq::<Seq<char>>::empty());
                v
            },
        };
        let shared = match shared_previous_head {
            Some(p) => Some(owned(p)),
            None => None,
        };
        RepoStatusSnapshot {
            current_head: owned(current_head),
            shared_previous_head: shared,
            committed_paths,
            dirty_paths: parse_name_status_z(dirty_output),
            untracked_paths: parse_untracked_z(untracked_output),
        }
    }

    /// The relevant files changed since a cache written at `state_head`,
    /// sorted and once each; `None` when that cannot be known.
    pub fn changed_files_for(&self, state_head: &str, include_tests: bool, language: Language)
        -> (res: Option<Vec<String>>)
        ensures
            match res {
                Some(v) => strictly_sorted(strings_view(v@))
                    && changed_files_spec(self, state_head@, include_tests, language) == Some(set_of(strings_view(v@))),
                None => changed_files_spec(self, state_head@, include_tests, language) is None,
            },
    {
        let mut changed: Vec<String> = Vec::new();
        assert(set_of(strings_view(changed@)) =~= Set::<Seq<char>>::empty());
        add_relevant(&mut changed, &self.dirty_paths, include_tests, language);
        add_relevant(&mut changed, &self.untracked_paths, include_tests, language);
        if str_eq(state_head, self.current_head.as_str()) {
            assert(set_of(strings_view(changed@)) =~= relevant_set(self.dirty_paths@, include_tests, language)
                + relevant_set(self.untracked_paths@, include_tests, language));
            return Some(changed);
        }
        let shared = match &self.shared_previous_head {
            Some(h) => str_eq(h.as_str(), state_head),
            None => false,
        };
        if !shared {
            return None;
        }
        add_relevant(&mut changed, &self.committed_paths, include_tests, language);
        assert(set_of(strings_view(changed@)) =~= relevant_set(self.dirty_paths@, include_tests, language)
            + relevant_set(self.untracked_paths@, include_tests, language)
            + relevant_set(self.committed_paths@, include_tests, language));
        Some(changed)
    }
}

/// A cache written at `h`, which is not the current commit.
pub open spec fn written_at_other(o: Option<StateMetadata>, h: Seq<char>, current_head: Seq<char>) -> bool {
    match o {
        Some(m) => m.head@ == h && h != current_head,
        None => false,
    }
}

/// The commits, other than the current one, that the caches were written
/// at.
pub open spec fn previous_heads(metas: Seq<Option<StateMetadata>>, current_head: Seq<char>) -> Set<Seq<char>> {
    Set::new(|h: Seq<char>| exists|i: int| 0 <= i < metas.len() && written_at_other(#[trigger] metas[i], h, current_head))
}

/// The commit the caches were written at, when there is just one other
/// than the current one.
pub fn shared_previous_head(metas: &Vec<Option<StateMetadata>>, current_head: &str) -> (res: Option<String>)
    ensures
        match res {
            Some(h) => previous_heads(metas@, current_head@) == set![h@],
            None => !(exists|h: Seq<char>| previous_heads(metas@, current_head@) == set![h]),
        },
{
    let ghost all = previous_heads(metas@, current_head@);
    let mut heads: Vec<String> = Vec::new();
    let mut i: usize = 0;
    assert(set_of(strings_view(heads@)) =~= Set::<Seq<char>>::empty());
    while i < metas.len()
        invariant
            i <= metas@.len(),
            strictly_sorted(strings_view(heads@)),
            set_of(strings_view(heads@)) == previous_heads(metas@.take(i as int), current_head@),
        decreases metas@.len() - i,
    {
        match &metas[i] {
            Some(m) => {
                if !str_eq(m.head.as_str(), current_head) {
                    insert_sorted(&mut heads, m.head.clone());
                }
            },
            None => {},
        }
        proof {
            let next = previous_heads(metas@.take(i + 1), current_head@);
            let prev = previous_heads(metas@.take(i as int), current_head@);
            assert forall|h: Seq<char>| next.contains(h) <==> (prev.contains(h)
                || written_at_other(metas@[i as int], h, current_head@)) by {
                if next.contains(h) {
                    let j = choose|j: int| 0 <= j < i + 1 && written_at_other(#[trigger] metas@.take(i + 1)[j], h, current_head@);
                    if j < i {
                        assert(metas@.take(i as int)[j] == metas@.take(i + 1)[j]);
                    }
                }
                if prev.contains(h) {
                    let j = choose|j: int| 0 <= j < i && written_at_other(#[trigger] metas@.take(i as int)[j], h, current_head@);
                    assert(metas@.take(i + 1)[j] == metas@.take(i as int)[j]);
                }
                if written_at_other(metas@[i as int], h, current_head@) {
                    assert(metas@.take(i + 1)[i as int] == metas@[i as int]);
                }
            }
            assert(set_of(strings_view(heads@)) =~= next);
        }
        i = i + 1;
    }
    assert(metas@.take(metas@.len() as int) =~= metas@);
    let ghost hv = strings_view(heads@);
    proof {
        assert(hv.no_duplicates()) by {
            assert forall|a: int, b: int| 0 <= a < hv.len() && 0 <= b < hv.len() && a != b implies hv[a] != hv[b] by {
                if a < b {
                    assert(seq_lt(hv[a], hv[b]));
                    crate::text::lemma_seq_lt_irreflexive(hv[a]);
                } else {
                    assert(seq_lt(hv[b], hv[a]));
                    crate::text::lemma_seq_lt_irreflexive(hv[b]);
                }
            }
        }
        hv.unique_seq_to_set();
        assert(set_of(hv) =~= hv.to_set());
    }
    if heads.len() == 1 {
        let h = heads[0].clone();
        assert(all =~= set![h@]) by {
            assert(set_of(hv).contains(h@)) by { assert(hv[0] == h@); }
            assert forall|x: Seq<char>| set_of(hv).contains(x) implies x == h@ by {
                let j = choose|j: int| 0 <= j < hv.len() && hv[j] == x;
            }
        }
        Some(h)
    } else {
        proof {
            if exists|h: Seq<char>| all == set![h] {
                let h = choose|h: Seq<char>| all == set![h];
                assert(set![h].len() == 1);
            }
        }
        None
    }
}

// ---------------------------------------------------------------------
// What to do with each language's cache
// ---------------------------------------------------------------------

/// What to do with one language's cache.
pub enum LanguageCacheAction {
    /// No cache and no files: nothing to do.
    Skip,
    /// The cache is current.
    Reuse,
    /// The cache holds, but was written at an earlier commit.
    RefreshHeadOnly,
    /// These files must be parsed anew.
    Incremental { changed_files: Vec<String> },
    /// Everything must be parsed anew.
    FullRebuild,
}

/// One language's files, its cache summary when usable, and what to do.
pub struct LanguageCachePlan {
    pub language: Language,
    pub current_files: Vec<SourceFile>,
    pub state_meta: Option<StateMetadata>,
    pub action: LanguageCacheAction,
}

/// The action for a language: skip it with no usable cache and no files,
/// rebuild it with no usable cache or with changes that cannot be known,
/// reuse it (or refresh its commit) with no changes, and else update it
/// with the changed files.
pub open spec fn action_ok(action: LanguageCacheAction, meta: Option<StateMetadata>, no_files: bool,
    snap: &RepoStatusSnapshot, current_head: Seq<char>, include_tests: bool, language: Language) -> bool
{
    match meta {
        None => if no_files { action is Skip } else { action is FullRebuild },
        Some(m) => match changed_files_spec(snap, m.head@, include_tests, language) {
            None => action is FullRebuild,
            Some(c) => if c == Set::<Seq<char>>::empty() {
                if m.head@ == current_head { action is Reuse } else { action is RefreshHeadOnly }
            } else {
                action matches LanguageCacheAction::Incremental { changed_files }
                    && strictly_sorted(strings_view(changed_files@)) && set_of(strings_view(changed_files@)) == c
            },
        },
    }
}

/// Law: a file of the language that changed in the work tree, or that git
/// does not track yet, is never missed. When the language's cache exists,
/// such a file (a test file too when tests are included) keeps the cache
/// from being reused as it stands: either the graph is rebuilt in full, or
/// the file is among those parsed anew.
pub proof fn law_changed_language_file_is_seen(action: LanguageCacheAction, m: StateMetadata, no_files: bool,
    snap: &RepoStatusSnapshot, current_head: Seq<char>, include_tests: bool, language: Language, p: Seq<char>)
    requires
        action_ok(action, Some(m), no_files, snap, current_head, include_tests, language),
        (exists|i: int| 0 <= i < snap.dirty_paths@.len() && (#[trigger] snap.dirty_paths@[i])@ == p)
            || (exists|i: int| 0 <= i < snap.untracked_paths@.len() && (#[trigger] snap.untracked_paths@[i])@ == p),
        language_of_path(p) == Some(language),
        include_tests || !is_test_path(p),
    ensures
        action is FullRebuild || action is Incremental,
        action matches LanguageCacheAction::Incremental { changed_files }
            ==> exists|k: int| 0 <= k < changed_files@.len() && (#[trigger] changed_files@[k])@ == p,
{
    let local = relevant_set(snap.dirty_paths@, include_tests, language)
        + relevant_set(snap.untracked_paths@, include_tests, language);
    assert(relevant(p, include_tests, language));
    if exists|i: int| 0 <= i < snap.dirty_paths@.len() && (#[trigger] snap.dirty_paths@[i])@ == p {
        assert(relevant_set(snap.dirty_paths@, include_tests, language).contains(p));
    } else {
        assert(relevant_set(snap.untracked_paths@, include_tests, language).contains(p));
    }
    assert(local.contains(p));
    match changed_files_spec(snap, m.head@, include_tests, language) {
        None => {},
        Some(c) => {
            assert(c.contains(p));
            assert(c != Set::<Seq<char>>::empty());
            if let LanguageCacheAction::Incremental { changed_files } = action {
                assert(set_of(strings_view(changed_files@)).contains(p));
                let k = choose|k: int| 0 <= k < strings_view(changed_files@).len() && strings_view(changed_files@)[k] == p;
                assert(changed_files@[k]@ == p);
            }
        },
    }
}

/// Law: the files parsed anew for a language are files of that language
/// (test files only when tests are included) that git reports as changed:
/// in the work tree, not tracked, or changed by commits since the cache.
pub proof fn law_changed_files_belong_to_language(action: LanguageCacheAction, meta: Option<StateMetadata>,
    no_files: bool, snap: &RepoStatusSnapshot, current_head: Seq<char>, include_tests: bool, language: Language)
    requires
        action_ok(action, meta, no_files, snap, current_head, include_tests, language),
    ensures
        action matches LanguageCacheAction::Incremental { changed_files } ==> forall|k: int|
            0 <= k < changed_files@.len() ==> {
                let p = (#[trigger] changed_files@[k])@;
                &&& language_of_path(p) == Some(language)
                &&& include_tests || !is_test_path(p)
                &&& (exists|i: int| 0 <= i < snap.dirty_paths@.len() && (#[trigger] snap.dirty_paths@[i])@ == p)
                    || (exists|i: int| 0 <= i < snap.untracked_paths@.len() && (#[trigger] snap.untracked_paths@[i])@ == p)
                    || (exists|i: int| 0 <= i < snap.committed_paths@.len() && (#[trigger] snap.committed_paths@[i])@ == p)
            },
{
    if let LanguageCacheAction::Incremental { changed_files } = action {
        let m = meta->0;
        let c = changed_files_spec(snap, m.head@, include_tests, language)->0;
        assert forall|k: int| 0 <= k < changed_files@.len() implies {
            let p = (#[trigger] changed_files@[k])@;
            &&& language_of_path(p) == Some(language)
            &&& include_tests || !is_test_path(p)
            &&& (exists|i: int| 0 <= i < snap.dirty_paths@.len() && (#[trigger] snap.dirty_paths@[i])@ == p)
                || (exists|i: int| 0 <= i < snap.untracked_paths@.len() && (#[trigger] snap.untracked_paths@[i])@ == p)
                || (exists|i: int| 0 <= i < snap.committed_paths@.len() && (#[trigger] snap.committed_paths@[i])@ == p)
        } by {
            let p = changed_files@[k]@;
            assert(strings_view(changed_files@)[k] == p);
            assert(set_of(strings_view(changed_files@)).contains(p));
            assert(c.contains(p));
        }
    }
}

/// Law: a language's cache is built anew when it is missing while the
/// language has files, or when it was written at a commit that is neither
/// the current one nor the one the caches share; it is reused as it stands
/// exactly when it was written at the current commit and no relevant file
/// changed, changes in the work tree being all that count then; and the
/// files parsed anew all belong to the language's graph (test files only
/// when tests are included).
pub proof fn law_cache_freshness(action: LanguageCacheAction, meta: Option<StateMetadata>, no_files: bool,
    snap: &RepoStatusSnapshot, current_head: Seq<char>, include_tests: bool, language: Language)
    requires
        snap.current_head@ == current_head,
        action_ok(action, meta, no_files, snap, current_head, include_tests, language),
    ensures
        meta is None && !no_files ==> action is FullRebuild,
        (meta matches Some(m) && m.head@ != current_head
            && !(snap.shared_previous_head matches Some(h) && h@ == m.head@)) ==> action is FullRebuild,
        action is Reuse <==> (meta matches Some(m) && m.head@ == current_head
            && changed_files_spec(snap, m.head@, include_tests, language) == Some(Set::<Seq<char>>::empty())),
        (meta matches Some(m) && m.head@ == current_head) ==> changed_files_spec(snap, current_head, include_tests,
            language) == Some(relevant_set(snap.dirty_paths@, include_tests, language)
            + relevant_set(snap.untracked_paths@, include_tests, language)),
        action matches LanguageCacheAction::Incremental { changed_files } ==> forall|k: int|
            0 <= k < changed_files@.len() ==> relevant((#[trigger] changed_files@[k])@, include_tests, language),
{
    if let LanguageCacheAction::Incremental { changed_files } = action {
        let m = meta->0;
        let c = changed_files_spec(snap, m.head@, include_tests, language)->0;
        assert forall|k: int| 0 <= k < changed_files@.len() implies relevant((#[trigger] changed_files@[k])@,
            include_tests, language) by {
            assert(strings_view(changed_files@)[k] == changed_files@[k]@);
            assert(set_of(strings_view(changed_files@)).contains(changed_files@[k]@));
            assert(c.contains(changed_files@[k]@));
        }
    }
}

/// The summary of a cache when it can be used.
pub open spec fn usable_meta(meta: Option<StateMetadata>, repo_path: Seq<char>, include_tests: bool, language: Language)
    -> Option<StateMetadata>
{
    match meta {
        Some(m) => if m.schema_version == SCHEMA_VERSION && m.repo_path@ == repo_path && m.include_tests == include_tests
            && m.language == language { Some(m) } else { None },
        None => None,
    }
}

fn copy_files(v: &Vec<SourceFile>) -> (res: Vec<SourceFile>)
    ensures
        res@ == v@,
{
    let mut res: Vec<SourceFile> = Vec::new();
    let mut i: usize = 0;
    while i < v.len()
        invariant
            i <= v@.len(),
            res@ == v@.take(i as int),
        decreases v@.len() - i,
    {
        res.push(SourceFile { relative: v[i].relative.clone(), path: v[i].path.clone() });
        i = i + 1;
        assert(res@ =~= v@.take(i as int));
    }
    assert(v@.take(v@.len() as int) =~= v@);
    res
}

/// The plan for each language, in declaration order, given its files and
/// its cache summary (both listed in that order).
pub fn build_language_plans(
    repo_path: &str,
    include_tests: bool,
    current_head: &str,
    current_files_by_language: &Vec<Vec<SourceFile>>,
    state_metas: &Vec<Option<StateMetadata>>,
    snapshot: &RepoStatusSnapshot,
) -> (res: Vec<LanguageCachePlan>)
    requires
        current_files_by_language@.len() == 7,
        state_metas@.len() == 7,
    ensures
        res@.len() == 7,
        forall|i: int| 0 <= i < 7 ==> {
            let plan = #[trigger] res@[i];
            let language = all_languages()[i];
            &&& plan.language == language
            &&& plan.current_files@ == current_files_by_language@[i]@
            &&& plan.state_meta == usable_meta(state_metas@[i], repo_path@, include_tests, language)
            &&& action_ok(plan.action, plan.state_meta, current_files_by_language@[i]@.len() == 0, snapshot,
                current_head@, include_tests, language)
        },
{
    let languages = Language::all();
    let mut plans: Vec<LanguageCachePlan> = Vec::new();
    let mut i: usize = 0;
    while i < 7
        invariant
            i <= 7,
            languages@ == all_languages(),
            current_files_by_language@.len() == 7,
            state_metas@.len() == 7,
            plans@.len() == i,
            forall|k: int| 0 <= k < i ==> {
                let plan = #[trigger] plans@[k];
                let language = all_languages()[k];
                &&& plan.language == language
                &&& plan.current_files@ == current_files_by_language@[k]@
                &&& plan.state_meta == usable_meta(state_metas@[k], repo_path@, include_tests, language)
                &&& action_ok(plan.action, plan.state_meta, current_files_by_language@[k]@.len() == 0, snapshot,
                    current_head@, include_tests, language)
            },
        decreases 7 - i,
    {
        let language = languages[i];
        let current_files = copy_files(&current_files_by_language[i]);
        let state_meta = match &state_metas[i] {
            Some(meta) => if compatible_state_metadata(meta, repo_path, include_tests, language) {
                Some(meta.copy())
            } else {
                None
            },
            None => None,
        };
        let action = match &state_meta {
            None => if current_files.len() == 0 { LanguageCacheAction::Skip } else { LanguageCacheAction::FullRebuild },
            Some(meta) => match snapshot.changed_files_for(meta.head.as_str(), include_tests, language) {
                None => LanguageCacheAction::FullRebuild,
                Some(changed_files) => {
                    if changed_files.len() == 0 {
                        proof {
                            assert(strings_view(changed_files@) =~= Seq::<Seq<char>>::empty());
                            assert(set_of(strings_view(changed_files@)) =~= Set::<Seq<char>>::empty());
                        }
                        if str_eq(meta.head.as_str(), current_head) {
                            LanguageCacheAction::Reuse
                        } else {
                            LanguageCacheAction::RefreshHeadOnly
                        }
                    } else {
                        proof {
                            let sv = strings_view(changed_files@);
                            assert(set_of(sv).contains(sv[0]));
                            assert(!Set::<Seq<char>>::empty().contains(sv[0]));
                        }
                        LanguageCacheAction::Incremental { changed_files }
                    }
                },
            },
        };
        plans.push(LanguageCachePlan { language, current_files, state_meta, action });
        i = i + 1;
    }
    plans
}

/// Whether the cached query indexes may serve: no language needs a
/// rebuild or an update.
pub open spec fn plans_reusable(plans: Seq<LanguageCachePlan>) -> bool {
    forall|i: int| 0 <= i < plans.len() ==> ((#[trigger] plans[i]).action is Skip || plans[i].action is Reuse
        || plans[i].action is RefreshHeadOnly)
}

pub fn can_reuse_query_cache(plans: &Vec<LanguageCachePlan>) -> (res: bool)
    ensures
        res == plans_reusable(plans@),
{
    let mut i: usize = 0;
    while i < plans.len()
        invariant
            i <= plans@.len(),
            forall|k: int| 0 <= k < i ==> ((#[trigger] plans@[k]).action is Skip || plans@[k].action is Reuse
                || plans@[k].action is RefreshHeadOnly),
        decreases plans@.len() - i,
    {
        match &plans[i].action {
            LanguageCacheAction::Skip | LanguageCacheAction::Reuse | LanguageCacheAction::RefreshHeadOnly => {},
            _ => {
                return false;
            },
        }
        i = i + 1;
    }
    true
}

// ---------------------------------------------------------------------
// Putting the languages together
// ---------------------------------------------------------------------

#[verifier::ext_equal]
pub struct StateMetadataV {
    pub schema_version: u32,
    pub repo_path: Seq<char>,
    pub include_tests: bool,
    pub language: Language,
    pub head: Seq<char>,
    pub content_fingerprint: Seq<char>,
    pub file_count: usize,
}

impl View for StateMetadata {
    type V = StateMetadataV;

    open spec fn view(&self) -> StateMetadataV {
        StateMetadataV {
            schema_version: self.schema_version,
            repo_path: self.repo_path@,
            include_tests: self.include_tests,
            language: self.language,
            head: self.head@,
            content_fingerprint: self.content_fingerprint@,
            file_count: self.file_count,
        }
    }
}

pub open spec fn metas_view(metas: Seq<StateMetadata>) -> Seq<StateMetadataV> {
    metas.map_values(|m: StateMetadata| m@)
}

/// The summaries of a rank, in order.
pub open spec fn metas_of_rank(metas: Seq<StateMetadataV>, r: nat) -> Seq<StateMetadataV>
    decreases metas.len(),
{
    if metas.len() == 0 {
        Seq::empty()
    } else if rank_of(metas.last().language) == r {
        metas_of_rank(metas.drop_last(), r).push(metas.last())
    } else {
        metas_of_rank(metas.drop_last(), r)
    }
}

/// The summaries ordered by language, from rank `r` on; those of one
/// language keep their order.
pub open spec fn metas_by_language(metas: Seq<StateMetadataV>, r: nat) -> Seq<StateMetadataV>
    decreases 7 - r,
{
    if r >= 7 { Seq::empty() } else { metas_of_rank(metas, r) + metas_by_language(metas, r + 1) }
}

/// The summaries ordered by language; those of one language keep their
/// order.
pub fn sort_metas_by_language(metas: &Vec<StateMetadata>) -> (res: Vec<StateMetadata>)
    ensures
        metas_view(res@) == metas_by_language(metas_view(metas@), 0),
{
    let ghost mv = metas_view(metas@);
    let mut res: Vec<StateMetadata> = Vec::new();
    let mut r: u8 = 0;
    assert(metas_view(res@) =~= Seq::<StateMetadataV>::empty());
    while r < 7
        invariant
            r <= 7,
            mv == metas_view(metas@),
            metas_view(res@) + metas_by_language(mv, r as nat) == metas_by_language(mv, 0),
        decreases 7 - r,
    {
        let ghost base = metas_view(res@);
        let mut i: usize = 0;
        assert(mv.take(0) =~= Seq::<StateMetadataV>::empty());
        assert(metas_view(res@) =~= base + metas_of_rank(mv.take(0), r as nat));
        while i < metas.len()
            invariant
                i <= metas@.len(),
                r < 7,
                mv == metas_view(metas@),
                res@.len() == base.len() + metas_of_rank(mv.take(i as int), r as nat).len(),
                metas_view(res@) == base + metas_of_rank(mv.take(i as int), r as nat),
            decreases metas@.len() - i,
        {
            assert(mv.take(i + 1).drop_last() =~= mv.take(i as int));
            assert(mv.take(i + 1).last() == metas@[i as int]@);
            if metas[i].language.rank() == r {
                let ghost prev = res@;
                let m = metas[i].copy();
                res.push(m);
                assert(metas_view(res@) =~= metas_view(prev).push(m@));
            }
            i = i + 1;
            assert(metas_view(res@) =~= base + metas_of_rank(mv.take(i as int), r as nat));
        }
        assert(mv.take(metas@.len() as int) =~= mv);
        assert(metas_view(res@) + metas_by_language(mv, (r + 1) as nat) =~= base + metas_by_language(mv, r as nat));
        r = r + 1;
    }
    assert(metas_view(res@) =~= metas_by_language(mv, 0));
    res
}

/// The summaries that stand when the query cache is reused: those of
/// reused languages, and those of languages whose cache holds at an
/// earlier commit, with the current commit in place of that one.
pub open spec fn refreshed_metas(plans: Seq<LanguageCachePlan>, current_head: Seq<char>) -> Seq<StateMetadataV>
    decreases plans.len(),
{
    if plans.len() == 0 {
        Seq::empty()
    } else {
        let prev = refreshed_metas(plans.drop_last(), current_head);
        let p = plans.last();
        match (p.action, p.state_meta) {
            (LanguageCacheAction::Reuse, Some(m)) => prev.push(m@),
            (LanguageCacheAction::RefreshHeadOnly, Some(m)) => prev.push(StateMetadataV { head: current_head, ..m@ }),
            _ => prev,
        }
    }
}

/// The summaries that need rewriting with the current commit.
pub open spec fn metas_to_rewrite(plans: Seq<LanguageCachePlan>, current_head: Seq<char>) -> Seq<StateMetadataV>
    decreases plans.len(),
{
    if plans.len() == 0 {
        Seq::empty()
    } else {
        let prev = metas_to_rewrite(plans.drop_last(), current_head);
        let p = plans.last();
        match (p.action, p.state_meta) {
            (LanguageCacheAction::RefreshHeadOnly, Some(m)) => prev.push(StateMetadataV { head: current_head, ..m@ }),
            _ => prev,
        }
    }
}

/// The summaries that stand when the query cache is reused, by language,
/// and the ones to rewrite with the current commit.
pub fn refreshed_metadata_heads(plans: &Vec<LanguageCachePlan>, current_head: &str)
    -> (res: (Vec<StateMetadata>, Vec<StateMetadata>))
    ensures
        metas_view(res.0@) == metas_by_language(refreshed_metas(plans@, current_head@), 0),
        metas_view(res.1@) == metas_to_rewrite(plans@, current_head@),
{
    let mut metas: Vec<StateMetadata> = Vec::new();
    let mut rewrite: Vec<StateMetadata> = Vec::new();
    let mut i: usize = 0;
    assert(metas_view(metas@) =~= Seq::<StateMetadataV>::empty());
    assert(metas_view(rewrite@) =~= Seq::<StateMetadataV>::empty());
    while i < plans.len()
        invariant
            i <= plans@.len(),
            metas_view(metas@) == refreshed_metas(plans@.take(i as int), current_head@),
            metas_view(rewrite@) == metas_to_rewrite(plans@.take(i as int), current_head@),
        decreases plans@.len() - i,
    {
        assert(plans@.take(i + 1).drop_last() =~= plans@.take(i as int));
        assert(plans@.take(i + 1).last() == plans@[i as int]);
        let ghost pm = metas@;
        let ghost pr = rewrite@;
        match (&plans[i].action, &plans[i].state_meta) {
            (LanguageCacheAction::Reuse, Some(meta)) => {
                let m = meta.copy();
                metas.push(m);
                assert(metas_view(metas@) =~= metas_view(pm).push(m@));
            },
            (LanguageCacheAction::RefreshHeadOnly, Some(meta)) => {
                let mut m = meta.copy();
                m.head = owned(current_head);
                let m2 = m.copy();
                metas.push(m);
                rewrite.push(m2);
                assert(metas_view(metas@) =~= metas_view(pm).push(StateMetadataV { head: current_head@, ..meta@ }));
                assert(metas_view(rewrite@) =~= metas_view(pr).push(StateMetadataV { head: current_head@, ..meta@ }));
            },
            _ => {},
        }
        i = i + 1;
    }
    assert(plans@.take(plans@.len() as int) =~= plans@);
    let sorted = sort_metas_by_language(&metas);
    (sorted, rewrite)
}

/// A copy of a graph.
pub fn copy_graph(g: &CallGraph) -> (res: CallGraph)
    ensures
        res@ == g@,
{
    let mut nodes: Vec<GraphNode> = Vec::new();
    let mut i: usize = 0;
    while i < g.nodes.len()
        invariant
            i <= g.nodes@.len(),
            nodes@.len() == i,
            forall|k: int| 0 <= k < i ==> (#[trigger] nodes@[k])@ == g.nodes@[k]@,
        decreases g.nodes@.len() - i,
    {
        nodes.push(g.nodes[i].clone());
        i = i + 1;
    }
    let mut edges: Vec<GraphEdge> = Vec::new();
    let mut i: usize = 0;
    while i < g.edges.len()
        invariant
            i <= g.edges@.len(),
            edges@.len() == i,
            forall|k: int| 0 <= k < i ==> (#[trigger] edges@[k])@ == g.edges@[k]@,
        decreases g.edges@.len() - i,
    {
        edges.push(g.edges[i].clone());
        i = i + 1;
    }
    let mut references: Vec<GraphReference> = Vec::new();
    let mut i: usize = 0;
    while i < g.references.len()
        invariant
            i <= g.references@.len(),
            references@.len() == i,
            forall|k: int| 0 <= k < i ==> (#[trigger] references@[k])@ == g.references@[k]@,
        decreases g.references@.len() - i,
    {
        references.push(g.references[i].clone());
        i = i + 1;
    }
    let res = CallGraph { nodes, edges, references };
    assert(res@.nodes =~= g@.nodes);
    assert(res@.edges =~= g@.edges);
    assert(res@.references =~= g@.references);
    res
}

/// A graph with something in it.
pub open spec fn graph_nonempty(g: CallGraphV) -> bool {
    g.nodes.len() > 0 || g.edges.len() > 0 || g.references.len() > 0
}

/// One language's graph, cache summary, and how it was obtained.
pub struct LanguageLoadResult {
    pub graph: CallGraph,
    pub state_meta: StateMetadata,
    pub outcome: LoadGraphOutcome,
}

/// The graphs of the results that have something in them, in order.
pub open spec fn nonempty_graphs(rs: Seq<LanguageLoadResult>) -> Seq<CallGraphV>
    decreases rs.len(),
{
    if rs.len() == 0 {
        Seq::empty()
    } else if graph_nonempty(rs.last().graph@) {
        nonempty_graphs(rs.drop_last()).push(rs.last().graph@)
    } else {
        nonempty_graphs(rs.drop_last())
    }
}

/// All nodes of the results' graphs.
pub open spec fn result_nodes(rs: Seq<LanguageLoadResult>) -> nat
    decreases rs.len(),
{
    if rs.len() == 0 { 0 } else { result_nodes(rs.drop_last()) + rs.last().graph@.nodes.len() }
}

/// The files some results parsed anew.
pub open spec fn results_changed(rs: Seq<LanguageLoadResult>) -> Set<Seq<char>> {
    Set::new(|p: Seq<char>| exists|i: int, j: int| 0 <= i < rs.len() && 0 <= j < rs[i].outcome.changed_files@.len()
        && (#[trigger] rs[i].outcome.changed_files@[j])@ == p)
}

/// Some string among the first `j` of a list is `p`.
pub open spec fn in_prefix(f: Seq<String>, j: int, p: Seq<char>) -> bool {
    exists|k: int| 0 <= k < j && (#[trigger] f[k])@ == p
}

/// The heaviest mode among the results, `Reused` for none.
pub open spec fn results_weight(rs: Seq<LanguageLoadResult>) -> nat
    decreases rs.len(),
{
    if rs.len() == 0 {
        0
    } else {
        let w = mode_weight(rs.last().outcome.mode);
        let rest = results_weight(rs.drop_last());
        if w > rest { w } else { rest }
    }
}

proof fn lemma_nonempty_total(rs: Seq<LanguageLoadResult>)
    ensures
        total_nodes(nonempty_graphs(rs)) <= result_nodes(rs),
    decreases rs.len(),
{
    if rs.len() > 0 {
        lemma_nonempty_total(rs.drop_last());
        if graph_nonempty(rs.last().graph@) {
            assert(nonempty_graphs(rs).drop_last() =~= nonempty_graphs(rs.drop_last()));
        }
    }
}

/// The relative paths of some source files, in order.
pub open spec fn relative_paths(files: Seq<SourceFile>) -> Seq<Seq<char>> {
    files.map_values(|f: SourceFile| f.relative@)
}

/// The mode and the files parsed anew of a language's load: nothing for a
/// skipped language; a full rebuild lists every current file, and so does
/// any other action when its cache could not be read (`fell_back`); a
/// reuse or a refresh of the commit lists none; an incremental update
/// lists the changed files of the plan.
pub open spec fn outcome_of(action: LanguageCacheAction, fell_back: bool, current: Seq<SourceFile>)
    -> Option<(LoadGraphMode, Seq<Seq<char>>)>
{
    match action {
        LanguageCacheAction::Skip => None,
        LanguageCacheAction::FullRebuild => Some((LoadGraphMode::FullRebuild, relative_paths(current))),
        LanguageCacheAction::Reuse => if fell_back {
            Some((LoadGraphMode::FullRebuild, relative_paths(current)))
        } else {
            Some((LoadGraphMode::Reused, Seq::empty()))
        },
        LanguageCacheAction::RefreshHeadOnly => if fell_back {
            Some((LoadGraphMode::FullRebuild, relative_paths(current)))
        } else {
            Some((LoadGraphMode::Reused, Seq::empty()))
        },
        LanguageCacheAction::Incremental { changed_files } => if fell_back {
            Some((LoadGraphMode::FullRebuild, relative_paths(current)))
        } else {
            Some((LoadGraphMode::Incremental, strings_view(changed_files@)))
        },
    }
}

/// The relative paths of some source files.
fn relatives_of(files: &Vec<SourceFile>) -> (res: Vec<String>)
    ensures
        strings_view(res@) == relative_paths(files@),
{
    let mut res: Vec<String> = Vec::new();
    let mut i: usize = 0;
    while i < files.len()
        invariant
            i <= files@.len(),
            strings_view(res@) == relative_paths(files@.take(i as int)),
        decreases files@.len() - i,
    {
        let r = files[i].relative.clone();
        proof {
            lemma_strings_view_push(res@, r);
            assert(relative_paths(files@.take(i + 1)) =~= relative_paths(files@.take(i as int)).push(files@[i as int].relative@));
        }
        res.push(r);
        i = i + 1;
    }
    assert(files@.take(files@.len() as int) =~= files@);
    res
}

/// The outcome of a language's load, from the action its plan chose and
/// whether its cache could not be read, so that every file was parsed
/// anew (`fell_back`); none for a skipped language.
pub fn language_outcome(action: &LanguageCacheAction, fell_back: bool, current: &Vec<SourceFile>)
    -> (res: Option<LoadGraphOutcome>)
    ensures
        match res {
            Some(o) => outcome_of(*action, fell_back, current@) == Some((o.mode, strings_view(o.changed_files@))),
            None => outcome_of(*action, fell_back, current@) is None,
        },
{
    match action {
        LanguageCacheAction::Skip => None,
        LanguageCacheAction::FullRebuild => Some(LoadGraphOutcome {
            mode: LoadGraphMode::FullRebuild, changed_files: relatives_of(current) }),
        LanguageCacheAction::Reuse | LanguageCacheAction::RefreshHeadOnly => {
            if fell_back {
                Some(LoadGraphOutcome { mode: LoadGraphMode::FullRebuild, changed_files: relatives_of(current) })
            } else {
                let none: Vec<String> = Vec::new();
                assert(strings_view(none@) =~= Seq::<Seq<char>>::empty());
                Some(LoadGraphOutcome { mode: LoadGraphMode::Reused, changed_files: none })
            }
        },
        LanguageCacheAction::Incremental { changed_files } => {
            if fell_back {
                Some(LoadGraphOutcome { mode: LoadGraphMode::FullRebuild, changed_files: relatives_of(current) })
            } else {
                Some(LoadGraphOutcome { mode: LoadGraphMode::Incremental, changed_files: clone_strings(changed_files) })
            }
        },
    }
}

/// Law: the outcome of a planned action fits its mode. A reuse parses no
/// file, and a planned incremental update parses at least one.
pub proof fn law_planned_outcome_consistent(action: LanguageCacheAction, meta: Option<StateMetadata>, no_files: bool,
    snap: &RepoStatusSnapshot, current_head: Seq<char>, include_tests: bool, language: Language, fell_back: bool,
    current: Seq<SourceFile>)
    requires
        action_ok(action, meta, no_files, snap, current_head, include_tests, language),
    ensures
        outcome_of(action, fell_back, current) matches Some((mode, files)) ==> {
            &&& mode is Reused ==> files.len() == 0
            &&& mode is Incremental ==> files.len() > 0
        },
{
    if let LanguageCacheAction::Incremental { changed_files } = action {
        if !fell_back && changed_files@.len() == 0 {
            assert(set_of(strings_view(changed_files@)) =~= Set::<Seq<char>>::empty());
        }
    }
}

/// The state a full rebuild stores: this version's, for these settings,
/// at the current commit, with the files parsed.
pub fn full_state(repo_path: &str, include_tests: bool, language: Language, current_head: &str,
    files: Vec<InternalFile>) -> (res: CacheState)
    ensures
        res.schema_version == SCHEMA_VERSION,
        res.repo_path@ == repo_path@,
        res.include_tests == include_tests,
        res.language == language,
        res.head@ == current_head@,
        res.files@ == files@,
{
    CacheState {
        schema_version: SCHEMA_VERSION,
        repo_path: owned(repo_path),
        include_tests,
        language,
        head: owned(current_head),
        files,
    }
}

/// The state an incremental update stores: the cached state moved to the
/// current commit, its files those still current with the changed ones
/// parsed anew or dropped.
pub fn incremental_state(state: CacheState, current: &Vec<SourceFile>, changed: &Vec<String>,
    rebuilt: Vec<Option<FileArtifact>>, current_head: &str) -> (res: CacheState)
    requires
        by_path(files_view(state.files@)),
        rebuilt@.len() == changed@.len(),
    ensures
        res.schema_version == state.schema_version,
        res.repo_path == state.repo_path,
        res.include_tests == state.include_tests,
        res.language == state.language,
        res.head@ == current_head@,
        holds_map(files_view(res.files@), apply_changes(map_of(files_view(state.files@)).restrict(current_paths(current@)),
            changed@, rebuilt@, 0)),
{
    let CacheState { schema_version, repo_path, include_tests, language, head: _, files } = state;
    let files = update_state_files(files, current, changed, rebuilt);
    CacheState { schema_version, repo_path, include_tests, language, head: owned(current_head), files }
}

/// The summary a reused language keeps: for a refresh of the commit, the
/// same summary at the current commit; otherwise as it was.
pub fn reused_meta(meta: &StateMetadata, action: &LanguageCacheAction, current_head: &str) -> (res: StateMetadata)
    ensures
        res == (if *action is RefreshHeadOnly {
            StateMetadata { head: res.head, ..*meta }
        } else {
            *meta
        }),
        *action is RefreshHeadOnly ==> res.head@ == current_head@,
{
    let mut res = meta.copy();
    if let LanguageCacheAction::RefreshHeadOnly = action {
        res.head = owned(current_head);
    }
    res
}

/// Law: a graph whose functions all belong to one language joins only
/// functions of that language.
pub proof fn law_one_language_graph_local(g: CallGraphV, language: Language)
    requires
        graph_wf(g),
        forall|i: int| 0 <= i < g.nodes.len() ==> (#[trigger] g.nodes[i]).language == language,
    ensures
        language_local(g),
{
}

/// Law: the loaded payload stays language-local. When each language's
/// graph joins only functions of one language, so does the merged graph
/// that a load puts its query indexes on: no call or reference crosses
/// languages.
pub proof fn law_loaded_graph_language_local(rs: Seq<LanguageLoadResult>)
    requires
        forall|i: int| 0 <= i < rs.len() ==> language_local((#[trigger] rs[i]).graph@),
        result_nodes(rs) <= usize::MAX,
    ensures
        language_local(merged_spec(nonempty_graphs(rs))),
{
    lemma_nonempty_total(rs);
    assert forall|k: int| 0 <= k < nonempty_graphs(rs).len() implies language_local(#[trigger] nonempty_graphs(rs)[k]) by {
        lemma_nonempty_local(rs, k);
    }
    law_merge_language_local(nonempty_graphs(rs));
}

proof fn lemma_nonempty_local(rs: Seq<LanguageLoadResult>, k: int)
    requires
        forall|i: int| 0 <= i < rs.len() ==> language_local((#[trigger] rs[i]).graph@),
        0 <= k < nonempty_graphs(rs).len(),
    ensures
        language_local(nonempty_graphs(rs)[k]),
    decreases rs.len(),
{
    let prev = rs.drop_last();
    assert forall|i: int| 0 <= i < prev.len() implies language_local((#[trigger] prev[i]).graph@) by {
        assert(prev[i] == rs[i]);
    }
    if graph_nonempty(rs.last().graph@) && k == nonempty_graphs(prev).len() {
        assert(rs[rs.len() - 1] == rs.last());
    } else {
        lemma_nonempty_local(prev, k);
    }
}

impl LoadGraphOutcome {
    /// The outcome of a load that used the stored query cache as it
    /// stands: a reuse that parsed no file.
    pub fn reused() -> (res: LoadGraphOutcome)
        ensures
            res.mode is Reused,
            res.changed_files@.len() == 0,
    {
        LoadGraphOutcome { mode: LoadGraphMode::Reused, changed_files: Vec::new() }
    }
}

/// A load outcome that fits its mode: a reuse parsed no file, an
/// incremental update some.
pub open spec fn outcome_consistent(o: LoadGraphOutcome) -> bool {
    &&& o.mode is Reused ==> o.changed_files@.len() == 0
    &&& o.mode is Incremental ==> o.changed_files@.len() > 0
}

/// The heaviest mode among some results is a reuse only when every one
/// is, and an incremental update only when one of them is.
proof fn lemma_results_weight(rs: Seq<LanguageLoadResult>)
    ensures
        results_weight(rs) <= 2,
        results_weight(rs) == 0 ==> forall|i: int| 0 <= i < rs.len() ==> (#[trigger] rs[i]).outcome.mode is Reused,
        results_weight(rs) > 0 ==> exists|a: int| 0 <= a < rs.len() && mode_weight(rs[a].outcome.mode) == results_weight(rs),
    decreases rs.len(),
{
    if rs.len() > 0 {
        lemma_results_weight(rs.drop_last());
        let prev = rs.drop_last();
        if results_weight(rs) == 0 {
            assert forall|i: int| 0 <= i < rs.len() implies (#[trigger] rs[i]).outcome.mode is Reused by {
                if i < prev.len() {
                    assert(prev[i] == rs[i]);
                }
            }
        }
        if results_weight(rs) > 0 {
            if mode_weight(rs.last().outcome.mode) == results_weight(rs) {
                assert(rs[rs.len() - 1] == rs.last());
            } else {
                let a = choose|a: int| 0 <= a < prev.len() && mode_weight(prev[a].outcome.mode) == results_weight(prev);
                assert(prev[a] == rs[a]);
            }
        }
    }
}

/// What loading all languages gives: the merged graph with its query
/// indexes, the cache summaries by language, the files parsed anew (sorted,
/// once each), and the heaviest way a language was loaded.
pub struct AssembledLoad {
    pub payload: QueryCachePayload,
    pub state_metas: Vec<StateMetadata>,
    pub changed_files: Vec<String>,
    pub mode: LoadGraphMode,
}

/// Puts the languages' results together.
pub fn assemble_load(results: &Vec<LanguageLoadResult>, timings: &mut TimingCollector) -> (res: AssembledLoad)
    requires
        forall|i: int| 0 <= i < results@.len() ==> graph_wf((#[trigger] results@[i]).graph@),
        result_nodes(results@) <= usize::MAX,
    ensures
        res.payload.graph@ == merged_spec(nonempty_graphs(results@)),
        res.payload.wf(),
        metas_view(res.state_metas@) == metas_by_language(metas_view(results@.map_values(|r: LanguageLoadResult| r.state_meta)), 0),
        strictly_sorted(strings_view(res.changed_files@)),
        set_of(strings_view(res.changed_files@)) == results_changed(results@),
        mode_weight(res.mode) == results_weight(results@),
        (forall|i: int| 0 <= i < results@.len() ==> outcome_consistent(#[trigger] results@[i].outcome)) ==> {
            &&& res.mode is Reused ==> res.changed_files@.len() == 0
            &&& res.mode is Incremental ==> res.changed_files@.len() > 0
        },
        final(timings).spec_enabled() == old(timings).spec_enabled(),
        forall|i: int| 0 <= i < SUMMED_STAGES ==> #[trigger] final(timings).totals()[i] >= old(timings).totals()[i],
{
    let ghost rs = results@;
    let mut graphs: Vec<CallGraph> = Vec::new();
    let mut metas: Vec<StateMetadata> = Vec::new();
    let mut changed: Vec<String> = Vec::new();
    let mut mode = LoadGraphMode::Reused;
    let mut i: usize = 0;
    assert(graphs_view(graphs@) =~= Seq::<CallGraphV>::empty());
    assert(set_of(strings_view(changed@)) =~= Set::<Seq<char>>::empty());
    assert(metas@ =~= rs.take(0).map_values(|r: LanguageLoadResult| r.state_meta));
    while i < results.len()
        invariant
            rs == results@,
            forall|k: int| 0 <= k < rs.len() ==> graph_wf((#[trigger] rs[k]).graph@),
            i <= rs.len(),
            graphs_view(graphs@) == nonempty_graphs(rs.take(i as int)),
            metas@ == rs.take(i as int).map_values(|r: LanguageLoadResult| r.state_meta),
            strictly_sorted(strings_view(changed@)),
            set_of(strings_view(changed@)) == results_changed(rs.take(i as int)),
            mode_weight(mode) == results_weight(rs.take(i as int)),
        decreases rs.len() - i,
    {
        let r = &results[i];
        assert(rs.take(i + 1).drop_last() =~= rs.take(i as int));
        assert(rs.take(i + 1).last() == rs[i as int]);
        if r.graph.nodes.len() > 0 || r.graph.edges.len() > 0 || r.graph.references.len() > 0 {
            let ghost before = graphs_view(graphs@);
            let g = copy_graph(&r.graph);
            graphs.push(g);
            assert(graphs_view(graphs@) =~= before.push(r.graph@));
        }
        metas.push(r.state_meta.copy());
        assert(metas@ =~= rs.take(i + 1).map_values(|r: LanguageLoadResult| r.state_meta));
        let ghost before_changed = set_of(strings_view(changed@));
        let mut j: usize = 0;
        assert(set_of(strings_view(changed@)) =~= before_changed + Set::new(|p: Seq<char>| in_prefix(r.outcome.changed_files@, 0, p)));
        while j < r.outcome.changed_files.len()
            invariant
                j <= r.outcome.changed_files@.len(),
                strictly_sorted(strings_view(changed@)),
                set_of(strings_view(changed@)) == before_changed + Set::new(|p: Seq<char>| in_prefix(r.outcome.changed_files@, j as int, p)),
            decreases r.outcome.changed_files@.len() - j,
        {
            insert_sorted(&mut changed, r.outcome.changed_files[j].clone());
            proof {
                let f = r.outcome.changed_files@;
                assert forall|p: Seq<char>| #[trigger] in_prefix(f, j + 1, p) <==> (in_prefix(f, j as int, p) || p == f[j as int]@) by {
                    if p == f[j as int]@ {
                        assert(f[j as int]@ == p);
                    }
                    if in_prefix(f, j + 1, p) {
                        let k = choose|k: int| 0 <= k < j + 1 && (#[trigger] f[k])@ == p;
                    }
                }
                assert(set_of(strings_view(changed@)) =~= before_changed + Set::new(|p: Seq<char>| in_prefix(f, j + 1, p)));
            }
            j = j + 1;
        }
        assert forall|p: Seq<char>| in_prefix(r.outcome.changed_files@, r.outcome.changed_files@.len() as int, p)
            <==> exists|k: int| 0 <= k < r.outcome.changed_files@.len() && (#[trigger] r.outcome.changed_files@[k])@ == p by {}
        proof {
            let next = rs.take(i + 1);
            assert forall|p: Seq<char>| results_changed(next).contains(p) <==> (results_changed(rs.take(i as int)).contains(p)
                || exists|k: int| 0 <= k < r.outcome.changed_files@.len() && (#[trigger] r.outcome.changed_files@[k])@ == p) by {
                if results_changed(next).contains(p) {
                    let (a, b) = choose|a: int, b: int| 0 <= a < next.len() && 0 <= b < next[a].outcome.changed_files@.len()
                        && (#[trigger] next[a].outcome.changed_files@[b])@ == p;
                    if a < i {
                        assert(rs.take(i as int)[a] == next[a]);
                    } else {
                        assert(next[a] == *r);
                    }
                }
                if results_changed(rs.take(i as int)).contains(p) {
                    let (a, b) = choose|a: int, b: int| 0 <= a < rs.take(i as int).len()
                        && 0 <= b < rs.take(i as int)[a].outcome.changed_files@.len()
                        && (#[trigger] rs.take(i as int)[a].outcome.changed_files@[b])@ == p;
                    assert(next[a] == rs.take(i as int)[a]);
                }
                if exists|k: int| 0 <= k < r.outcome.changed_files@.len() && (#[trigger] r.outcome.changed_files@[k])@ == p {
                    let k = choose|k: int| 0 <= k < r.outcome.changed_files@.len() && (#[trigger] r.outcome.changed_files@[k])@ == p;
                    assert(next[i as int] == *r);
                    assert(next[i as int].outcome.changed_files@[k]@ == p);
                }
            }
            assert(set_of(strings_view(changed@)) =~= results_changed(next));
        }
        mode = merge_mode(mode, r.outcome.mode);
        i = i + 1;
    }
    assert(rs.take(rs.len() as int) =~= rs);
    proof {
        lemma_nonempty_total(rs);
        assert forall|k: int| 0 <= k < nonempty_graphs(rs).len() implies graph_wf(#[trigger] nonempty_graphs(rs)[k]) by {
            lemma_nonempty_wf(rs, k);
        }
        assert forall|k: int| 0 <= k < graphs@.len() implies graph_wf(#[trigger] graphs@[k]@) by {
            assert(graphs_view(graphs@)[k] == graphs@[k]@);
            assert(graph_wf(nonempty_graphs(rs)[k]));
        }
    }
    let merged = if graphs.len() == 0 {
        let e = empty_graph();
        assert(merged_spec(graphs_view(graphs@)) == empty_graph_view());
        e
    } else {
        let merge = || -> (g: CallGraph)
            requires
                forall|k: int| 0 <= k < graphs@.len() ==> graph_wf(#[trigger] graphs@[k]@),
                total_nodes(graphs_view(graphs@)) <= usize::MAX,
            ensures
                g@ == merged_spec(graphs_view(graphs@)),
            {
                merge_graphs(&graphs)
            };
        timings.measure("merge_graphs", merge)
    };
    proof {
        lemma_merged_wf(nonempty_graphs(rs));
    }
    let ghost mg = merged@;
    let build = move || -> (p: QueryCachePayload)
        requires
            graph_wf(merged@),
        ensures
            p.graph@ == merged@,
            p.wf(),
        {
            QueryCachePayload::from_graph(merged)
        };
    let payload = timings.measure("derived_index_build", build);
    assert(payload.graph@ == mg);
    proof {
        if forall|i: int| 0 <= i < rs.len() ==> outcome_consistent(#[trigger] rs[i].outcome) {
            lemma_results_weight(rs);
            if mode is Reused {
                assert(results_changed(rs) =~= Set::<Seq<char>>::empty()) by {
                    assert forall|p: Seq<char>| !results_changed(rs).contains(p) by {
                        if results_changed(rs).contains(p) {
                            let (a, b) = choose|a: int, b: int| 0 <= a < rs.len()
                                && 0 <= b < rs[a].outcome.changed_files@.len()
                                && (#[trigger] rs[a].outcome.changed_files@[b])@ == p;
                            assert(outcome_consistent(rs[a].outcome));
                        }
                    }
                }
                if changed@.len() > 0 {
                    assert(set_of(strings_view(changed@)).contains(strings_view(changed@)[0]));
                }
            }
            if mode is Incremental {
                let a = choose|a: int| 0 <= a < rs.len() && mode_weight(rs[a].outcome.mode) == 1;
                assert(outcome_consistent(rs[a].outcome));
                let p = rs[a].outcome.changed_files@[0]@;
                assert(results_changed(rs).contains(p));
                assert(set_of(strings_view(changed@)).contains(p));
            }
        }
    }
    let state_metas = sort_metas_by_language(&metas);
    proof {
        assert(payload.graph@.nodes == merged_spec(nonempty_graphs(rs)).nodes);
    }
    AssembledLoad { payload, state_metas, changed_files: changed, mode }
}

proof fn lemma_nonempty_wf(rs: Seq<LanguageLoadResult>, k: int)
    requires
        forall|i: int| 0 <= i < rs.len() ==> graph_wf((#[trigger] rs[i]).graph@),
        0 <= k < nonempty_graphs(rs).len(),
    ensures
        graph_wf(nonempty_graphs(rs)[k]),
    decreases rs.len(),
{
    let prev = rs.drop_last();
    assert forall|i: int| 0 <= i < prev.len() implies graph_wf((#[trigger] prev[i]).graph@) by {
        assert(prev[i] == rs[i]);
    }
    if graph_nonempty(rs.last().graph@) {
        if k < nonempty_graphs(prev).len() {
            lemma_nonempty_wf(prev, k);
        } else {
            assert(graph_wf(rs[rs.len() - 1].graph@));
        }
    } else {
        lemma_nonempty_wf(prev, k);
    }
}

// ---------------------------------------------------------------------
// Updating a language's cached artifacts
// ---------------------------------------------------------------------

/// Whether a language's cached artifacts were written by this version, for
/// this repository and these settings.
pub fn state_matches(state: &CacheState, repo_path: &str, include_tests: bool, language: Language) -> (res: bool)
    ensures
        res == (state.schema_version == SCHEMA_VERSION && state.repo_path@ == repo_path@
            && state.include_tests == include_tests && state.language == language),
{
    state.schema_version == SCHEMA_VERSION && str_eq(state.repo_path.as_str(), repo_path)
        && state.include_tests == include_tests && state.language == language
}

/// A list ordered by path holding just the entries of `m`.
pub open spec fn holds_map(v: Seq<InternalFileV>, m: Map<Seq<char>, FileArtifactV>) -> bool {
    &&& by_path(v)
    &&& forall|r: Seq<char>| #[trigger] m.contains_key(r) <==> exists|i: int| 0 <= i < v.len() && v[i].path == r
    &&& forall|i: int| 0 <= i < v.len() ==> m.contains_key((#[trigger] v[i]).path) && m[v[i].path] == v[i].artifact
}

/// The relative paths of the current files.
pub open spec fn current_paths(current: Seq<SourceFile>) -> Set<Seq<char>> {
    Set::new(|r: Seq<char>| exists|i: int| 0 <= i < current.len() && (#[trigger] current[i]).relative@ == r)
}

/// The artifacts after the changes from the `k`-th on: a changed file that
/// is current gets its new artifact, one that is gone is dropped.
pub open spec fn apply_changes(m: Map<Seq<char>, FileArtifactV>, changed: Seq<String>, rebuilt: Seq<Option<FileArtifact>>,
    k: int) -> Map<Seq<char>, FileArtifactV>
    decreases changed.len() - k,
{
    if k < 0 || k >= changed.len() || k >= rebuilt.len() {
        m
    } else {
        let next = match rebuilt[k] {
            Some(a) => m.insert(changed[k]@, a@),
            None => m.remove(changed[k]@),
        };
        apply_changes(next, changed, rebuilt, k + 1)
    }
}

/// The last of the changes from the `k`-th on that names `p`, if any.
pub open spec fn last_change(changed: Seq<String>, k: int, p: Seq<char>) -> Option<int>
    decreases changed.len() - k,
{
    if k < 0 || k >= changed.len() {
        None
    } else {
        match last_change(changed, k + 1, p) {
            Some(j) => Some(j),
            None => if changed[k]@ == p { Some(k) } else { None },
        }
    }
}

/// What the changes from the `k`-th on leave at one path: the last change
/// naming it decides, and a path no change names keeps what it had.
proof fn lemma_apply_changes_at(m: Map<Seq<char>, FileArtifactV>, changed: Seq<String>,
    rebuilt: Seq<Option<FileArtifact>>, k: int, p: Seq<char>)
    requires
        rebuilt.len() == changed.len(),
        0 <= k <= changed.len(),
    ensures
        last_change(changed, k, p) is None <==> forall|j: int| k <= j < changed.len() ==> (#[trigger] changed[j])@ != p,
        match last_change(changed, k, p) {
            Some(j) => k <= j < changed.len() && changed[j]@ == p && match rebuilt[j] {
                Some(a) => apply_changes(m, changed, rebuilt, k).contains_key(p)
                    && apply_changes(m, changed, rebuilt, k)[p] == a@,
                None => !apply_changes(m, changed, rebuilt, k).contains_key(p),
            },
            None => apply_changes(m, changed, rebuilt, k).contains_key(p) == m.contains_key(p)
                && (m.contains_key(p) ==> apply_changes(m, changed, rebuilt, k)[p] == m[p]),
        },
    decreases changed.len() - k,
{
    if k < changed.len() {
        let next = match rebuilt[k] {
            Some(a) => m.insert(changed[k]@, a@),
            None => m.remove(changed[k]@),
        };
        lemma_apply_changes_at(next, changed, rebuilt, k + 1, p);
        if last_change(changed, k + 1, p) is None && changed[k]@ != p {
            assert forall|j: int| k <= j < changed.len() implies (#[trigger] changed[j])@ != p by {
                if j > k {
                    assert(k + 1 <= j < changed.len());
                }
            }
        }
    }
}

/// Law: an incremental update gives the artifacts that parsing every file
/// anew would. When each current file is either among the changed files,
/// parsed anew, or kept an artifact that is still its own, and each changed
/// file is parsed exactly when it is still current, the files held after
/// the update are the current ones, each with its fresh artifact.
pub proof fn law_incremental_matches_full(m0: Map<Seq<char>, FileArtifactV>, current: Seq<SourceFile>,
    changed: Seq<String>, rebuilt: Seq<Option<FileArtifact>>, fresh: Map<Seq<char>, FileArtifactV>)
    requires
        fresh.dom() == current_paths(current),
        rebuilt.len() == changed.len(),
        forall|i: int| 0 <= i < changed.len() ==> ((#[trigger] rebuilt[i]) is Some
            <==> current_paths(current).contains(changed[i]@)),
        forall|i: int| 0 <= i < changed.len() && (#[trigger] rebuilt[i]) is Some
            ==> rebuilt[i]->0@ == fresh[changed[i]@],
        forall|p: Seq<char>| #[trigger] current_paths(current).contains(p)
            && (forall|i: int| 0 <= i < changed.len() ==> (#[trigger] changed[i])@ != p)
            ==> m0.contains_key(p) && m0[p] == fresh[p],
    ensures
        apply_changes(m0.restrict(current_paths(current)), changed, rebuilt, 0) == fresh,
{
    let cur = current_paths(current);
    let start = m0.restrict(cur);
    let after = apply_changes(start, changed, rebuilt, 0);
    assert forall|p: Seq<char>| #[trigger] after.contains_key(p) <==> fresh.contains_key(p) by {
        lemma_apply_changes_at(start, changed, rebuilt, 0, p);
        if let Some(j) = last_change(changed, 0, p) {
            assert(rebuilt[j] is Some <==> cur.contains(changed[j]@));
        } else {
            if cur.contains(p) {
                assert(m0.contains_key(p));
            }
        }
    }
    assert forall|p: Seq<char>| #[trigger] after.contains_key(p) implies after[p] == fresh[p] by {
        lemma_apply_changes_at(start, changed, rebuilt, 0, p);
        if let Some(j) = last_change(changed, 0, p) {
            assert(rebuilt[j] is Some);
            assert(rebuilt[j]->0@ == fresh[changed[j]@]);
        } else {
            assert(cur.contains(p));
        }
    }
    assert(after =~= fresh);
}

/// Whether a path is among the current files.
fn is_current(current: &Vec<SourceFile>, path: &str) -> (res: bool)
    ensures
        res == current_paths(current@).contains(path@),
{
    let mut i: usize = 0;
    while i < current.len()
        invariant
            i <= current@.len(),
            forall|k: int| 0 <= k < i ==> (#[trigger] current@[k]).relative@ != path@,
        decreases current@.len() - i,
    {
        if str_eq(current[i].relative.as_str(), path) {
            return true;
        }
        i = i + 1;
    }
    false
}

/// For each changed file, whether it is still among the current files:
/// those get a new artifact.
pub fn changed_still_current(current: &Vec<SourceFile>, changed: &Vec<String>) -> (res: Vec<bool>)
    ensures
        res@.len() == changed@.len(),
        forall|i: int| 0 <= i < res@.len() ==> (#[trigger] res@[i]) == current_paths(current@).contains(changed@[i]@),
{
    let mut res: Vec<bool> = Vec::new();
    let mut i: usize = 0;
    while i < changed.len()
        invariant
            i <= changed@.len(),
            res@.len() == i,
            forall|k: int| 0 <= k < i ==> (#[trigger] res@[k]) == current_paths(current@).contains(changed@[k]@),
        decreases changed@.len() - i,
    {
        res.push(is_current(current, changed[i].as_str()));
        i = i + 1;
    }
    res
}

/// Puts an artifact in place of the one of the same path, or in order.
fn upsert_file(files: &mut Vec<InternalFile>, f: InternalFile, m: Ghost<Map<Seq<char>, FileArtifactV>>)
    requires
        holds_map(files_view(old(files)@), m@),
    ensures
        holds_map(files_view(final(files)@), m@.insert(f.path@, f.artifact@)),
{
    let ghost old_v = files_view(files@);
    let ghost m2 = m@.insert(f.path@, f.artifact@);
    let mut pos: usize = 0;
    while pos < files.len() && str_lt(files[pos].path.as_str(), f.path.as_str())
        invariant
            pos <= files@.len(),
            files_view(files@) == old_v,
            holds_map(old_v, m@),
            forall|a: int| 0 <= a < pos ==> seq_lt(old_v[a].path, f.path@),
        decreases files@.len() - pos,
    {
        assert(old_v[pos as int] == files@[pos as int]@);
        pos = pos + 1;
    }
    if pos < files.len() && str_eq(files[pos].path.as_str(), f.path.as_str()) {
        assert(old_v[pos as int].path == f.path@);
        files.set(pos, f);
        let ghost nv = files_view(files@);
        proof {
            assert(nv =~= old_v.update(pos as int, f@));
            assert forall|a: int, b: int| 0 <= a < b < nv.len() implies seq_lt(nv[a].path, nv[b].path) by {
                assert(nv[a].path == old_v[a].path);
                assert(nv[b].path == old_v[b].path);
            }
            assert forall|r: Seq<char>| #[trigger] m2.contains_key(r) <==> exists|i: int| 0 <= i < nv.len() && nv[i].path == r by {
                if m@.contains_key(r) {
                    let i = choose|i: int| 0 <= i < old_v.len() && old_v[i].path == r;
                    assert(nv[i].path == r);
                }
                if exists|i: int| 0 <= i < nv.len() && nv[i].path == r {
                    let i = choose|i: int| 0 <= i < nv.len() && nv[i].path == r;
                    assert(old_v[i].path == r);
                }
            }
            assert forall|i: int| 0 <= i < nv.len() implies m2.contains_key((#[trigger] nv[i]).path)
                && m2[nv[i].path] == nv[i].artifact by {
                if i != pos {
                    assert(nv[i] == old_v[i]);
                    if old_v[i].path == f.path@ {
                        if i < pos {
                            lemma_seq_lt_asymmetric(old_v[i].path, old_v[pos as int].path);
                            lemma_seq_lt_irreflexive(f.path@);
                        } else {
                            lemma_seq_lt_irreflexive(f.path@);
                        }
                    }
                }
            }
        }
        return;
    }
    proof {
        if pos < old_v.len() {
            assert(old_v[pos as int] == files@[pos as int]@);
            lemma_seq_lt_total(f.path@, old_v[pos as int].path);
        }
    }
    let ghost fv = f@;
    files.insert(pos, f);
    let ghost nv = files_view(files@);
    proof {
        assert(nv =~= old_v.insert(pos as int, fv));
        assert forall|a: int, b: int| 0 <= a < b < nv.len() implies seq_lt(nv[a].path, nv[b].path) by {
            if a < pos && b == pos {
            } else if a < pos && b > pos {
                assert(nv[b] == old_v[b - 1]);
            } else if a == pos && b > pos {
                assert(nv[b] == old_v[b - 1]);
                if b - 1 > pos {
                    lemma_seq_lt_transitive(fv.path, old_v[pos as int].path, old_v[b - 1].path);
                }
            } else if a > pos {
                assert(nv[a] == old_v[a - 1]);
                assert(nv[b] == old_v[b - 1]);
            }
        }
        assert forall|r: Seq<char>| #[trigger] m2.contains_key(r) <==> exists|i: int| 0 <= i < nv.len() && nv[i].path == r by {
            if m@.contains_key(r) {
                let i = choose|i: int| 0 <= i < old_v.len() && old_v[i].path == r;
                if i < pos {
                    assert(nv[i].path == r);
                } else {
                    assert(nv[i + 1].path == r);
                }
            }
            if r == fv.path {
                assert(nv[pos as int].path == r);
            }
            if exists|i: int| 0 <= i < nv.len() && nv[i].path == r {
                let i = choose|i: int| 0 <= i < nv.len() && nv[i].path == r;
                if i < pos {
                    assert(old_v[i].path == r);
                } else if i > pos {
                    assert(old_v[i - 1].path == r);
                }
            }
        }
        assert forall|i: int| 0 <= i < nv.len() implies m2.contains_key((#[trigger] nv[i]).path)
            && m2[nv[i].path] == nv[i].artifact by {
            if i < pos {
                assert(nv[i] == old_v[i]);
                lemma_seq_lt_irreflexive(fv.path);
            } else if i > pos {
                assert(nv[i] == old_v[i - 1]);
                if old_v[i - 1].path == fv.path {
                    lemma_seq_lt_irreflexive(fv.path);
                    if i - 1 > pos {
                        lemma_seq_lt_transitive(fv.path, old_v[pos as int].path, old_v[i - 1].path);
                    }
                }
            }
        }
    }
}

/// Drops the artifact of a path, if there is one.
fn remove_file(files: &mut Vec<InternalFile>, path: &str, m: Ghost<Map<Seq<char>, FileArtifactV>>)
    requires
        holds_map(files_view(old(files)@), m@),
    ensures
        holds_map(files_view(final(files)@), m@.remove(path@)),
{
    let ghost old_v = files_view(files@);
    let ghost m2 = m@.remove(path@);
    let mut pos: usize = 0;
    while pos < files.len() && !str_eq(files[pos].path.as_str(), path)
        invariant
            pos <= files@.len(),
            files_view(files@) == old_v,
            forall|a: int| 0 <= a < pos ==> old_v[a].path != path@,
        decreases files@.len() - pos,
    {
        assert(old_v[pos as int] == files@[pos as int]@);
        pos = pos + 1;
    }
    if pos == files.len() {
        assert(m2 =~= m@) by {
            assert(!m@.contains_key(path@));
        }
        return;
    }
    assert(old_v[pos as int] == files@[pos as int]@);
    let _gone = files.remove(pos);
    let ghost nv = files_view(files@);
    proof {
        assert(nv =~= old_v.remove(pos as int));
        assert forall|a: int, b: int| 0 <= a < b < nv.len() implies seq_lt(nv[a].path, nv[b].path) by {
            let a0 = if a < pos { a } else { a + 1 };
            let b0 = if b < pos { b } else { b + 1 };
            assert(nv[a] == old_v[a0]);
            assert(nv[b] == old_v[b0]);
        }
        assert forall|r: Seq<char>| #[trigger] m2.contains_key(r) <==> exists|i: int| 0 <= i < nv.len() && nv[i].path == r by {
            if m2.contains_key(r) {
                let i = choose|i: int| 0 <= i < old_v.len() && old_v[i].path == r;
                if i < pos {
                    assert(nv[i].path == r);
                } else if i > pos {
                    assert(nv[i - 1].path == r);
                }
            }
            if exists|i: int| 0 <= i < nv.len() && nv[i].path == r {
                let i = choose|i: int| 0 <= i < nv.len() && nv[i].path == r;
                let i0 = if i < pos { i } else { i + 1 };
                assert(old_v[i0].path == r);
                if r == path@ {
                    if i0 < pos {
                        lemma_seq_lt_irreflexive(r);
                    } else {
                        lemma_seq_lt_irreflexive(r);
                    }
                }
            }
        }
        assert forall|i: int| 0 <= i < nv.len() implies m2.contains_key((#[trigger] nv[i]).path)
            && m2[nv[i].path] == nv[i].artifact by {
            let i0 = if i < pos { i } else { i + 1 };
            assert(nv[i] == old_v[i0]);
            if old_v[i0].path == path@ {
                lemma_seq_lt_irreflexive(path@);
            }
        }
    }
}

/// The artifacts of a list ordered by path, by path.
pub open spec fn map_of(v: Seq<InternalFileV>) -> Map<Seq<char>, FileArtifactV>
    decreases v.len(),
{
    if v.len() == 0 { Map::empty() } else { map_of(v.drop_last()).insert(v.last().path, v.last().artifact) }
}

proof fn lemma_map_of(v: Seq<InternalFileV>)
    requires
        by_path(v),
    ensures
        holds_map(v, map_of(v)),
    decreases v.len(),
{
    if v.len() > 0 {
        let p = v.drop_last();
        assert forall|a: int, b: int| 0 <= a < b < p.len() implies seq_lt(p[a].path, p[b].path) by {
            assert(p[a] == v[a]);
            assert(p[b] == v[b]);
        }
        lemma_map_of(p);
        let m = map_of(v);
        let l = v.last();
        assert forall|r: Seq<char>| #[trigger] m.contains_key(r) <==> exists|i: int| 0 <= i < v.len() && v[i].path == r by {
            if map_of(p).contains_key(r) {
                let i = choose|i: int| 0 <= i < p.len() && p[i].path == r;
                assert(v[i].path == r);
            }
            if r == l.path {
                assert(v[v.len() - 1].path == r);
            }
            if exists|i: int| 0 <= i < v.len() && v[i].path == r {
                let i = choose|i: int| 0 <= i < v.len() && v[i].path == r;
                if i < v.len() - 1 {
                    assert(p[i].path == r);
                }
            }
        }
        assert forall|i: int| 0 <= i < v.len() implies m.contains_key((#[trigger] v[i]).path) && m[v[i].path] == v[i].artifact by {
            if i < v.len() - 1 {
                assert(p[i] == v[i]);
                assert(seq_lt(v[i].path, l.path));
                if v[i].path == l.path {
                    lemma_seq_lt_irreflexive(l.path);
                }
            }
        }
    }
}

/// A language's cached artifacts brought up to date: files no longer
/// current are dropped, then each changed file that is current gets its
/// new artifact and each that is gone is dropped.
pub fn update_state_files(files: Vec<InternalFile>, current: &Vec<SourceFile>, changed: &Vec<String>,
    rebuilt: Vec<Option<FileArtifact>>) -> (res: Vec<InternalFile>)
    requires
        by_path(files_view(files@)),
        rebuilt@.len() == changed@.len(),
    ensures
        holds_map(files_view(res@), apply_changes(map_of(files_view(files@)).restrict(current_paths(current@)),
            changed@, rebuilt@, 0)),
{
    let ghost m0 = map_of(files_view(files@));
    let ghost keep = current_paths(current@);
    proof {
        lemma_map_of(files_view(files@));
    }
    let mut paths: Vec<String> = Vec::new();
    let mut i: usize = 0;
    while i < files.len()
        invariant
            i <= files@.len(),
            paths@.len() == i,
            forall|k: int| 0 <= k < i ==> (#[trigger] paths@[k])@ == files@[k].path@,
        decreases files@.len() - i,
    {
        paths.push(files[i].path.clone());
        i = i + 1;
    }
    let ghost v0 = files_view(files@);
    let mut files = files;
    let ghost mut m = m0;
    let mut i: usize = 0;
    while i < paths.len()
        invariant
            i <= paths@.len(),
            paths@.len() == v0.len(),
            forall|k: int| 0 <= k < v0.len() ==> (#[trigger] paths@[k])@ == v0[k].path,
            holds_map(v0, m0),
            keep == current_paths(current@),
            holds_map(files_view(files@), m),
            forall|r: Seq<char>| #[trigger] m.contains_key(r) <==> (m0.contains_key(r)
                && (keep.contains(r) || !(exists|k: int| 0 <= k < i && (#[trigger] paths@[k])@ == r))),
            forall|r: Seq<char>| m.contains_key(r) ==> m[r] == m0[r],
        decreases paths@.len() - i,
    {
        let ghost m_prev = m;
        let ghost p = paths@[i as int]@;
        let cur = is_current(current, paths[i].as_str());
        assert(cur == keep.contains(p));
        if !cur {
            remove_file(&mut files, paths[i].as_str(), Ghost(m));
            proof {
                m = m.remove(p);
            }
        }
        proof {
            assert forall|r: Seq<char>| #[trigger] m.contains_key(r) <==> (m0.contains_key(r)
                && (keep.contains(r) || !(exists|k: int| 0 <= k < i + 1 && (#[trigger] paths@[k])@ == r))) by {
                let before = exists|k: int| 0 <= k < i && (#[trigger] paths@[k])@ == r;
                let after = exists|k: int| 0 <= k < i + 1 && (#[trigger] paths@[k])@ == r;
                assert(after <==> (before || r == p)) by {
                    if after {
                        let k = choose|k: int| 0 <= k < i + 1 && (#[trigger] paths@[k])@ == r;
                        if k < i {
                            assert(before);
                        }
                    }
                    if before {
                        let k = choose|k: int| 0 <= k < i && (#[trigger] paths@[k])@ == r;
                        assert(0 <= k < i + 1 && paths@[k]@ == r);
                    }
                    if r == p {
                        assert(0 <= i < i + 1 && paths@[i as int]@ == r);
                    }
                }
                assert(m_prev.contains_key(r) <==> (m0.contains_key(r) && (keep.contains(r) || !before)));
                if cur {
                    assert(m == m_prev);
                    assert(keep.contains(p));
                } else {
                    assert(m == m_prev.remove(p));
                    assert(!keep.contains(p));
                }
            }
            assert forall|r: Seq<char>| m.contains_key(r) implies m[r] == m0[r] by {
                assert(m_prev.contains_key(r));
            }
        }
        i = i + 1;
    }
    proof {
        assert forall|r: Seq<char>| #[trigger] m.contains_key(r) <==> m0.restrict(keep).contains_key(r) by {
            if m0.contains_key(r) && !keep.contains(r) {
                let k = choose|k: int| 0 <= k < v0.len() && v0[k].path == r;
                assert(paths@[k]@ == r);
            }
        }
        assert(m =~= m0.restrict(keep));
    }
    let ghost r0 = rebuilt@;
    let mut rebuilt = rebuilt;
    let mut j: usize = 0;
    while j < changed.len()
        invariant
            j <= changed@.len(),
            rebuilt@.len() == changed@.len(),
            r0.len() == changed@.len(),
            forall|k: int| j <= k < changed@.len() ==> (#[trigger] rebuilt@[k]) == r0[k],
            holds_map(files_view(files@), m),
            apply_changes(m, changed@, r0, j as int) == apply_changes(m0.restrict(keep), changed@, r0, 0),
        decreases changed@.len() - j,
    {
        let taken = rebuilt[j].take();
        match taken {
            Some(artifact) => {
                let ghost a = artifact@;
                let path = changed[j].clone();
                upsert_file(&mut files, InternalFile { path, artifact }, Ghost(m));
                proof {
                    m = m.insert(changed@[j as int]@, a);
                }
            },
            None => {
                remove_file(&mut files, changed[j].as_str(), Ghost(m));
                proof {
                    m = m.remove(changed@[j as int]@);
                }
            },
        }
        j = j + 1;
    }
    files
}

} // verus!
