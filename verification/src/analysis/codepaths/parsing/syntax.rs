use vstd::prelude::*;
use vstd::utf8::{valid_utf8, decode_utf8};
use vstd::slice::slice_subrange;
use crate::analysis::codepaths::types::Language;
use tree_sitter::Parser;
use tree_sitter_javascript::LANGUAGE as JAVASCRIPT;
use tree_sitter_python::LANGUAGE as PYTHON;
use tree_sitter_rust::LANGUAGE as RUST;
use tree_sitter_svelte_next::LANGUAGE as SVELTE;
use tree_sitter_typescript::{LANGUAGE_TSX as TSX, LANGUAGE_TYPESCRIPT as TYPESCRIPT};
use crate::text::{empty_string, owned, str_eq, trim, trimmed, utf8_text};

verus! {

// ---------------------------------------------------------------------
// What the parser reports
// ---------------------------------------------------------------------

/// A node of a syntax tree as the parser reports it, in pre-order: its kind,
/// the field it fills in its parent, whether it is named, its byte span,
/// its first and last row, and how deep it lies below the root.
pub type RawNode = (String, Option<String>, bool, usize, usize, usize, usize, u32);

/// The same node with its texts as character sequences.
#[verifier::ext_equal]
pub struct SyntaxRecordV {
    pub kind: Seq<char>,
    pub field: Option<Seq<char>>,
    pub named: bool,
    pub start_byte: usize,
    pub end_byte: usize,
    pub start_row: usize,
    pub end_row: usize,
    pub depth: u32,
}

pub open spec fn opt_text_view(o: Option<String>) -> Option<Seq<char>> {
    match o {
        Some(s) => Some(s@),
        None => None,
    }
}

pub open spec fn raw_view(r: RawNode) -> SyntaxRecordV {
    SyntaxRecordV {
        kind: r.0@,
        field: opt_text_view(r.1),
        named: r.2,
        start_byte: r.3,
        end_byte: r.4,
        start_row: r.5,
        end_row: r.6,
        depth: r.7,
    }
}

pub open spec fn records_view(v: Seq<RawNode>) -> Seq<SyntaxRecordV> {
    v.map_values(|r: RawNode| raw_view(r))
}

pub open spec fn records_opt_view(o: Option<Vec<RawNode>>) -> Option<Seq<SyntaxRecordV>> {
    match o {
        Some(v) => Some(records_view(v@)),
        None => None,
    }
}

/// The nodes that the Rust grammar (`tree_sitter_rust::LANGUAGE`) finds in `source`, in
/// pre-order; none when the parser gives no tree.
pub uninterp spec fn rust_syntax_of(source: Seq<char>) -> Option<Seq<SyntaxRecordV>>;

/// Parses `source` with the Rust grammar (`Parser::set_language`,
/// `Parser::parse`) and lists every node of the tree in pre-order
/// (`Node::descendant_count`, `TreeCursor::goto_descendant`); none when
/// the parser takes no grammar or gives no tree. A parse depends on the
/// text alone, so the list is named by it; what it holds is not stated.
#[verifier::external_body]
fn rust_syntax_records(source: &str) -> (res: Option<Vec<RawNode>>)
    ensures
        records_opt_view(res) == rust_syntax_of(source@),
{
    let mut parser = Parser::new();
    parser.set_language(&RUST.into()).ok()?;
    let tree = parser.parse(source, None)?;
    let mut c = tree.walk();
    Some((0..tree.root_node().descendant_count()).map(|i| { c.goto_descendant(i); let n = c.node();
        (n.kind().to_string(), c.field_name().map(String::from), n.is_named(), n.start_byte(), n.end_byte(),
        n.start_position().row, n.end_position().row, c.depth()) }).collect())
}

/// The nodes that the Python grammar (`tree_sitter_python::LANGUAGE`) finds in `source`, in
/// pre-order; none when the parser gives no tree.
pub uninterp spec fn python_syntax_of(source: Seq<char>) -> Option<Seq<SyntaxRecordV>>;

/// Parses `source` with the Python grammar (`Parser::set_language`,
/// `Parser::parse`) and lists every node of the tree in pre-order
/// (`Node::descendant_count`, `TreeCursor::goto_descendant`); none when
/// the parser takes no grammar or gives no tree. A parse depends on the
/// text alone, so the list is named by it; what it holds is not stated.
#[verifier::external_body]
fn python_syntax_records(source: &str) -> (res: Option<Vec<RawNode>>)
    ensures
        records_opt_view(res) == python_syntax_of(source@),
{
    let mut parser = Parser::new();
    parser.set_language(&PYTHON.into()).ok()?;
    let tree = parser.parse(source, None)?;
    let mut c = tree.walk();
    Some((0..tree.root_node().descendant_count()).map(|i| { c.goto_descendant(i); let n = c.node();
        (n.kind().to_string(), c.field_name().map(String::from), n.is_named(), n.start_byte(), n.end_byte(),
        n.start_position().row, n.end_position().row, c.depth()) }).collect())
}

/// The nodes that the JavaScript grammar (`tree_sitter_javascript::LANGUAGE`) finds in `source`, in
/// pre-order; none when the parser gives no tree.
pub uninterp spec fn javascript_syntax_of(source: Seq<char>) -> Option<Seq<SyntaxRecordV>>;

/// Parses `source` with the JavaScript grammar (`Parser::set_language`,
/// `Parser::parse`) and lists every node of the tree in pre-order
/// (`Node::descendant_count`, `TreeCursor::goto_descendant`); none when
/// the parser takes no grammar or gives no tree. A parse depends on the
/// text alone, so the list is named by it; what it holds is not stated.
#[verifier::external_body]
fn javascript_syntax_records(source: &str) -> (res: Option<Vec<RawNode>>)
    ensures
        records_opt_view(res) == javascript_syntax_of(source@),
{
    let mut parser = Parser::new();
    parser.set_language(&JAVASCRIPT.into()).ok()?;
    let tree = parser.parse(source, None)?;
    let mut c = tree.walk();
    Some((0..tree.root_node().descendant_count()).map(|i| { c.goto_descendant(i); let n = c.node();
        (n.kind().to_string(), c.field_name().map(String::from), n.is_named(), n.start_byte(), n.end_byte(),
        n.start_position().row, n.end_position().row, c.depth()) }).collect())
}

/// The nodes that the Svelte grammar (`tree_sitter_svelte_next::LANGUAGE`) finds in `source`, in
/// pre-order; none when the parser gives no tree.
pub uninterp spec fn svelte_syntax_of(source: Seq<char>) -> Option<Seq<SyntaxRecordV>>;

/// Parses `source` with the Svelte grammar (`Parser::set_language`,
/// `Parser::parse`) and lists every node of the tree in pre-order
/// (`Node::descendant_count`, `TreeCursor::goto_descendant`); none when
/// the parser takes no grammar or gives no tree. A parse depends on the
/// text alone, so the list is named by it; what it holds is not stated.
#[verifier::external_body]
fn svelte_syntax_records(source: &str) -> (res: Option<Vec<RawNode>>)
    ensures
        records_opt_view(res) == svelte_syntax_of(source@),
{
    let mut parser = Parser::new();
    parser.set_language(&SVELTE.into()).ok()?;
    let tree = parser.parse(source, None)?;
    let mut c = tree.walk();
    Some((0..tree.root_node().descendant_count()).map(|i| { c.goto_descendant(i); let n = c.node();
        (n.kind().to_string(), c.field_name().map(String::from), n.is_named(), n.start_byte(), n.end_byte(),
        n.start_position().row, n.end_position().row, c.depth()) }).collect())
}

/// The nodes that the TypeScript grammar (`tree_sitter_typescript::LANGUAGE_TYPESCRIPT`) finds in `source`, in
/// pre-order; none when the parser gives no tree.
pub uninterp spec fn typescript_syntax_of(source: Seq<char>) -> Option<Seq<SyntaxRecordV>>;

/// Parses `source` with the TypeScript grammar (`Parser::set_language`,
/// `Parser::parse`) and lists every node of the tree in pre-order
/// (`Node::descendant_count`, `TreeCursor::goto_descendant`); none when
/// the parser takes no grammar or gives no tree. A parse depends on the
/// text alone, so the list is named by it; what it holds is not stated.
#[verifier::external_body]
fn typescript_syntax_records(source: &str) -> (res: Option<Vec<RawNode>>)
    ensures
        records_opt_view(res) == typescript_syntax_of(source@),
{
    let mut parser = Parser::new();
    parser.set_language(&TYPESCRIPT.into()).ok()?;
    let tree = parser.parse(source, None)?;
    let mut c = tree.walk();
    Some((0..tree.root_node().descendant_count()).map(|i| { c.goto_descendant(i); let n = c.node();
        (n.kind().to_string(), c.field_name().map(String::from), n.is_named(), n.start_byte(), n.end_byte(),
        n.start_position().row, n.end_position().row, c.depth()) }).collect())
}

/// The nodes that the TSX grammar (`tree_sitter_typescript::LANGUAGE_TSX`) finds in `source`, in
/// pre-order; none when the parser gives no tree.
pub uninterp spec fn tsx_syntax_of(source: Seq<char>) -> Option<Seq<SyntaxRecordV>>;

/// Parses `source` with the TSX grammar (`Parser::set_language`,
/// `Parser::parse`) and lists every node of the tree in pre-order
/// (`Node::descendant_count`, `TreeCursor::goto_descendant`); none when
/// the parser takes no grammar or gives no tree. A parse depends on the
/// text alone, so the list is named by it; what it holds is not stated.
#[verifier::external_body]
fn tsx_syntax_records(source: &str) -> (res: Option<Vec<RawNode>>)
    ensures
        records_opt_view(res) == tsx_syntax_of(source@),
{
    let mut parser = Parser::new();
    parser.set_language(&TSX.into()).ok()?;
    let tree = parser.parse(source, None)?;
    let mut c = tree.walk();
    Some((0..tree.root_node().descendant_count()).map(|i| { c.goto_descendant(i); let n = c.node();
        (n.kind().to_string(), c.field_name().map(String::from), n.is_named(), n.start_byte(), n.end_byte(),
        n.start_position().row, n.end_position().row, c.depth()) }).collect())
}

/// The nodes of `source` in the grammar of `language`: JavaScript and JSX
/// files share the JavaScript grammar, TSX files have their own.
pub open spec fn syntax_of(language: Language, source: Seq<char>) -> Option<Seq<SyntaxRecordV>> {
    match language {
        Language::Rust => rust_syntax_of(source),
        Language::Python => python_syntax_of(source),
        Language::JavaScript => javascript_syntax_of(source),
        Language::Jsx => javascript_syntax_of(source),
        Language::Svelte => svelte_syntax_of(source),
        Language::TypeScript => typescript_syntax_of(source),
        Language::Tsx => tsx_syntax_of(source),
    }
}

/// The nodes of `source` in the grammar of `language`.
fn syntax_records(language: Language, source: &str) -> (res: Option<Vec<RawNode>>)
    ensures
        records_opt_view(res) == syntax_of(language, source@),
{
    match language {
        Language::Rust => rust_syntax_records(source),
        Language::Python => python_syntax_records(source),
        Language::JavaScript => javascript_syntax_records(source),
        Language::Jsx => javascript_syntax_records(source),
        Language::Svelte => svelte_syntax_records(source),
        Language::TypeScript => typescript_syntax_records(source),
        Language::Tsx => tsx_syntax_records(source),
    }
}

// ---------------------------------------------------------------------
// Trees
// ---------------------------------------------------------------------

/// A node of a syntax tree with its parent.
pub struct SyntaxNode {
    pub kind: String,
    pub field: Option<String>,
    pub named: bool,
    pub start_byte: usize,
    pub end_byte: usize,
    pub start_row: usize,
    pub end_row: usize,
    pub parent: Option<usize>,
}

#[verifier::ext_equal]
pub struct SyntaxNodeV {
    pub kind: Seq<char>,
    pub field: Option<Seq<char>>,
    pub named: bool,
    pub start_byte: usize,
    pub end_byte: usize,
    pub start_row: usize,
    pub end_row: usize,
    pub parent: Option<usize>,
}

impl View for SyntaxNode {
    type V = SyntaxNodeV;

    open spec fn view(&self) -> SyntaxNodeV {
        SyntaxNodeV {
            kind: self.kind@,
            field: opt_text_view(self.field),
            named: self.named,
            start_byte: self.start_byte,
            end_byte: self.end_byte,
            start_row: self.start_row,
            end_row: self.end_row,
            parent: self.parent,
        }
    }
}

pub open spec fn nodes_view(v: Seq<SyntaxNode>) -> Seq<SyntaxNodeV> {
    v.map_values(|n: SyntaxNode| n@)
}

/// Depths that a pre-order walk can give: the root at depth zero, every
/// other node at least one level down and at most one below the node before.
pub open spec fn depths_ok(r: Seq<SyntaxRecordV>) -> bool {
    &&& r.len() > 0 ==> r[0].depth == 0
    &&& forall|i: int| 0 < i < r.len() ==> 1 <= #[trigger] r[i].depth <= r[i - 1].depth + 1
}

/// `p` is the parent of `i` in a pre-order walk: the last node before `i`
/// one level up.
pub open spec fn parent_at(r: Seq<SyntaxRecordV>, i: int, p: int) -> bool {
    &&& 0 <= p < i < r.len()
    &&& r[p].depth + 1 == r[i].depth
    &&& forall|k: int| p < k < i ==> #[trigger] r[k].depth > r[p].depth
}

/// The parent of node `i`, none for the root.
pub open spec fn parent_of(r: Seq<SyntaxRecordV>, i: int) -> Option<usize> {
    if i == 0 {
        None
    } else {
        Some((choose|p: int| parent_at(r, i, p)) as usize)
    }
}

pub open spec fn node_of(rec: SyntaxRecordV, parent: Option<usize>) -> SyntaxNodeV {
    SyntaxNodeV {
        kind: rec.kind,
        field: rec.field,
        named: rec.named,
        start_byte: rec.start_byte,
        end_byte: rec.end_byte,
        start_row: rec.start_row,
        end_row: rec.end_row,
        parent: parent,
    }
}

/// The tree a pre-order list of nodes describes, when its depths are those
/// of a walk.
pub open spec fn tree_of(r: Seq<SyntaxRecordV>) -> Option<Seq<SyntaxNodeV>> {
    if depths_ok(r) {
        Some(Seq::new(r.len(), |i: int| node_of(r[i], parent_of(r, i))))
    } else {
        None
    }
}

/// The tree of `source` in the grammar of `language`.
pub open spec fn parsed_tree(language: Language, source: Seq<char>) -> Option<Seq<SyntaxNodeV>> {
    match syntax_of(language, source) {
        Some(r) => tree_of(r),
        None => None,
    }
}

/// Law: a JSX file parses exactly as a JavaScript file with the same text.
pub proof fn law_jsx_parses_as_javascript(source: Seq<char>)
    ensures
        parsed_tree(Language::Jsx, source) == parsed_tree(Language::JavaScript, source),
{
}

/// Every node but the root comes after its parent.
pub open spec fn tree_wf(v: Seq<SyntaxNodeV>) -> bool {
    &&& v.len() > 0 ==> v[0].parent is None
    &&& forall|i: int| 0 <= i < v.len() ==> match (#[trigger] v[i]).parent {
        Some(p) => p < i,
        None => i == 0,
    }
}

/// The children of `i` among the first `k` nodes, in order.
pub open spec fn kids_below(v: Seq<SyntaxNodeV>, i: int, k: nat) -> Seq<usize>
    decreases k,
{
    if k == 0 || k > v.len() {
        Seq::empty()
    } else if v[k - 1].parent == Some(i as usize) && k - 1 > i {
        kids_below(v, i, (k - 1) as nat).push((k - 1) as usize)
    } else {
        kids_below(v, i, (k - 1) as nat)
    }
}

/// The children of `i`, in order.
pub open spec fn kids(v: Seq<SyntaxNodeV>, i: int) -> Seq<usize> {
    kids_below(v, i, v.len())
}

/// Children come after their parent, in increasing order, within the tree.
pub proof fn lemma_kids_below(v: Seq<SyntaxNodeV>, i: int, k: nat)
    requires
        k <= v.len() <= usize::MAX,
    ensures
        forall|m: int| 0 <= m < kids_below(v, i, k).len() ==> i < #[trigger] kids_below(v, i, k)[m] < k
            && v[kids_below(v, i, k)[m] as int].parent == Some(i as usize),
        forall|a: int, b: int| 0 <= a < b < kids_below(v, i, k).len() ==> kids_below(v, i, k)[a] < kids_below(v, i, k)[b],
    decreases k,
{
    if k > 0 {
        lemma_kids_below(v, i, (k - 1) as nat);
        let prev = kids_below(v, i, (k - 1) as nat);
        let cur = kids_below(v, i, k);
        if v[k - 1].parent == Some(i as usize) && k - 1 > i {
            assert(cur == prev.push((k - 1) as usize));
            assert forall|m: int| 0 <= m < cur.len() implies i < #[trigger] cur[m] < k
                && v[cur[m] as int].parent == Some(i as usize) by {
                if m < prev.len() {
                    assert(cur[m] == prev[m]);
                }
            }
            assert forall|a: int, b: int| 0 <= a < b < cur.len() implies cur[a] < cur[b] by {
                assert(cur[a] == prev[a]);
                if b < prev.len() {
                    assert(cur[b] == prev[b]);
                }
            }
        } else {
            assert(cur == prev);
        }
    }
}

/// Children of the whole tree: after their parent and within the tree.
pub proof fn lemma_kids(v: Seq<SyntaxNodeV>, i: int)
    requires
        v.len() <= usize::MAX,
    ensures
        forall|m: int| 0 <= m < kids(v, i).len() ==> i < #[trigger] kids(v, i)[m] < v.len()
            && v[kids(v, i)[m] as int].parent == Some(i as usize),
        forall|a: int, b: int| 0 <= a < b < kids(v, i).len() ==> kids(v, i)[a] < kids(v, i)[b],
{
    lemma_kids_below(v, i, v.len());
}

/// The named nodes of `ks`, in order.
pub open spec fn keep_named(v: Seq<SyntaxNodeV>, ks: Seq<usize>) -> Seq<usize>
    decreases ks.len(),
{
    if ks.len() == 0 {
        ks
    } else if ks.last() < v.len() && v[ks.last() as int].named {
        keep_named(v, ks.drop_last()).push(ks.last())
    } else {
        keep_named(v, ks.drop_last())
    }
}

/// The named children of `i`, in order.
pub open spec fn named_kids(v: Seq<SyntaxNodeV>, i: int) -> Seq<usize> {
    keep_named(v, kids(v, i))
}

pub proof fn lemma_keep_named(v: Seq<SyntaxNodeV>, ks: Seq<usize>)
    ensures
        forall|m: int| 0 <= m < keep_named(v, ks).len() ==> ks.contains(#[trigger] keep_named(v, ks)[m]),
    decreases ks.len(),
{
    if ks.len() > 0 {
        lemma_keep_named(v, ks.drop_last());
        assert forall|m: int| 0 <= m < keep_named(v, ks).len() implies ks.contains(#[trigger] keep_named(v, ks)[m]) by {
            let prev = keep_named(v, ks.drop_last());
            if m < prev.len() {
                assert(keep_named(v, ks)[m] == prev[m]);
                let j = choose|j: int| 0 <= j < ks.drop_last().len() && ks.drop_last()[j] == prev[m];
                assert(ks[j] == prev[m]);
            } else {
                assert(keep_named(v, ks)[m] == ks.last());
                assert(ks[ks.len() - 1] == ks.last());
            }
        }
    }
}

/// Named children come after their parent and lie within the tree.
pub proof fn lemma_named_kids(v: Seq<SyntaxNodeV>, i: int)
    requires
        v.len() <= usize::MAX,
    ensures
        forall|m: int| 0 <= m < named_kids(v, i).len() ==> i < #[trigger] named_kids(v, i)[m] < v.len(),
{
    lemma_kids(v, i);
    lemma_keep_named(v, kids(v, i));
    assert forall|m: int| 0 <= m < named_kids(v, i).len() implies i < #[trigger] named_kids(v, i)[m] < v.len() by {
        let j = choose|j: int| 0 <= j < kids(v, i).len() && kids(v, i)[j] == named_kids(v, i)[m];
        assert(i < kids(v, i)[j] < v.len());
    }
}

/// The first node of `ks` that fills field `f`.
pub open spec fn first_with_field(v: Seq<SyntaxNodeV>, ks: Seq<usize>, f: Seq<char>) -> Option<usize>
    decreases ks.len(),
{
    if ks.len() == 0 {
        None
    } else if ks[0] < v.len() && v[ks[0] as int].field == Some(f) {
        Some(ks[0])
    } else {
        first_with_field(v, ks.drop_first(), f)
    }
}

/// The child of `i` that fills field `f` (`Node::child_by_field_name`).
pub open spec fn field_child(v: Seq<SyntaxNodeV>, i: int, f: Seq<char>) -> Option<usize> {
    first_with_field(v, kids(v, i), f)
}

/// What `first_with_field` gives is one of the nodes it was handed.
pub proof fn lemma_first_with_field(v: Seq<SyntaxNodeV>, ks: Seq<usize>, f: Seq<char>)
    ensures
        first_with_field(v, ks, f) matches Some(j) ==> ks.contains(j) && j < v.len(),
    decreases ks.len(),
{
    if ks.len() > 0 {
        lemma_first_with_field(v, ks.drop_first(), f);
        if let Some(j) = first_with_field(v, ks.drop_first(), f) {
            if !(ks[0] < v.len() && v[ks[0] as int].field == Some(f)) {
                let m = choose|m: int| 0 <= m < ks.drop_first().len() && ks.drop_first()[m] == j;
                assert(ks[m + 1] == j);
            }
        }
    }
}

/// The field child of `i` comes after `i` and lies within the tree.
pub proof fn lemma_field_child(v: Seq<SyntaxNodeV>, i: int, f: Seq<char>)
    requires
        v.len() <= usize::MAX,
    ensures
        field_child(v, i, f) matches Some(j) ==> i < j < v.len(),
{
    lemma_first_with_field(v, kids(v, i), f);
    lemma_kids(v, i);
    if let Some(j) = field_child(v, i, f) {
        let m = choose|m: int| 0 <= m < kids(v, i).len() && kids(v, i)[m] == j;
        assert(i < kids(v, i)[m] < v.len());
    }
}

/// The sibling just before `i` among the children of `p`, searching the
/// nodes below `k`.
pub open spec fn sibling_before(v: Seq<SyntaxNodeV>, p: int, k: int) -> Option<usize>
    decreases k - p,
{
    if k <= p + 1 || k > v.len() {
        None
    } else if v[k - 1].parent == Some(p as usize) {
        Some((k - 1) as usize)
    } else {
        sibling_before(v, p, k - 1)
    }
}

/// The sibling just before `i` (`Node::prev_sibling`).
pub open spec fn prev_sibling(v: Seq<SyntaxNodeV>, i: int) -> Option<usize> {
    if 0 <= i < v.len() {
        match v[i].parent {
            Some(p) => sibling_before(v, p as int, i),
            None => None,
        }
    } else {
        None
    }
}

pub proof fn lemma_sibling_before(v: Seq<SyntaxNodeV>, p: int, k: int)
    requires
        v.len() <= usize::MAX,
        p >= 0,
    ensures
        sibling_before(v, p, k) matches Some(j) ==> p < j < k && j < v.len(),
    decreases k - p,
{
    if !(k <= p + 1 || k > v.len()) && v[k - 1].parent != Some(p as usize) {
        lemma_sibling_before(v, p, k - 1);
    }
}

/// The characters of the bytes `n` spans (`Node::utf8_text`), none when
/// they are not UTF-8.
pub open spec fn span_text(src: Seq<u8>, n: SyntaxNodeV) -> Seq<char> {
    if n.start_byte <= n.end_byte <= src.len() && valid_utf8(src.subrange(n.start_byte as int, n.end_byte as int)) {
        decode_utf8(src.subrange(n.start_byte as int, n.end_byte as int))
    } else {
        Seq::empty()
    }
}

/// The text of a node, trimmed.
pub open spec fn node_text(src: Seq<u8>, n: SyntaxNodeV) -> Seq<char> {
    trimmed(span_text(src, n))
}

/// The text of a node when it is not empty.
pub open spec fn node_text_if_non_empty(src: Seq<u8>, n: SyntaxNodeV) -> Option<Seq<char>> {
    if node_text(src, n).len() > 0 { Some(node_text(src, n)) } else { None }
}

/// Before every node stands, at each depth up to its own, a last node at
/// that depth with only deeper nodes after it.
pub proof fn lemma_last_at_depth(r: Seq<SyntaxRecordV>, i: int, d: int)
    requires
        depths_ok(r),
        0 <= i < r.len(),
        0 <= d <= r[i].depth,
    ensures
        exists|p: int| #![trigger r[p]] 0 <= p <= i && r[p].depth == d
            && forall|k: int| p < k <= i ==> #[trigger] r[k].depth > d,
    decreases i,
{
    if r[i].depth == d {
        assert(r[i].depth == d && forall|k: int| i < k <= i ==> #[trigger] r[k].depth > d);
    } else {
        assert(i > 0);
        assert(1 <= r[i].depth <= r[i - 1].depth + 1);
        lemma_last_at_depth(r, i - 1, d);
        let p = choose|p: int| #![trigger r[p]] 0 <= p <= i - 1 && r[p].depth == d
            && forall|k: int| p < k <= i - 1 ==> #[trigger] r[k].depth > d;
        assert(forall|k: int| p < k <= i ==> #[trigger] r[k].depth > d);
    }
}

/// Each node after the root has a parent when the depths are those of a walk.
pub proof fn lemma_parent_exists(r: Seq<SyntaxRecordV>, i: int)
    requires
        depths_ok(r),
        0 < i < r.len(),
    ensures
        exists|p: int| parent_at(r, i, p),
{
    assert(1 <= r[i].depth <= r[i - 1].depth + 1);
    lemma_last_at_depth(r, i - 1, r[i].depth - 1);
    let p = choose|p: int| #![trigger r[p]] 0 <= p <= i - 1 && r[p].depth == r[i].depth - 1
        && forall|k: int| p < k <= i - 1 ==> #[trigger] r[k].depth > r[i].depth - 1;
    assert(parent_at(r, i, p));
}

/// A node has one parent.
pub proof fn lemma_parent_unique(r: Seq<SyntaxRecordV>, i: int, p: int)
    requires
        parent_at(r, i, p),
    ensures
        parent_of(r, i) == Some(p as usize),
{
    let q = choose|q: int| parent_at(r, i, q);
    assert(parent_at(r, i, q));
    if q < p {
        assert(r[p].depth > r[q].depth);
    } else if q > p {
        assert(r[q].depth > r[p].depth);
    }
}

/// The path from the root to node `i - 1`: the last node seen at each depth,
/// with only deeper nodes after it.
#[verifier::opaque]
pub open spec fn stack_ok(r: Seq<SyntaxRecordV>, stack: Seq<usize>, i: int) -> bool {
    &&& forall|d: int| 0 <= d < stack.len() ==> (#[trigger] stack[d]) < i && r[stack[d] as int].depth == d
    &&& forall|d: int, k: int| #![trigger stack[d], r[k]] 0 <= d < stack.len() && stack[d] < k < i ==> r[k].depth > d
    &&& i > 0 ==> stack.len() == r[i - 1].depth + 1 && stack.last() == i - 1
    &&& i == 0 ==> stack.len() == 0
}

/// One step of the walk: the parent of `i` stands on the path at the depth
/// above it, and the path to `i` is the path cut there with `i` added.
pub proof fn lemma_stack_step(r: Seq<SyntaxRecordV>, stack: Seq<usize>, i: int)
    requires
        stack_ok(r, stack, i),
        0 <= i < r.len() <= usize::MAX,
        i == 0 ==> r[i].depth == 0,
        i > 0 ==> 1 <= r[i].depth <= r[i - 1].depth + 1,
    ensures
        i > 0 ==> parent_at(r, i, stack[r[i].depth - 1] as int),
        stack_ok(r, stack.take(r[i].depth as int).push(i as usize), i + 1),
{
    reveal(stack_ok);
    let d0 = r[i].depth as int;
    let ns = stack.take(d0).push(i as usize);
    if i > 0 {
        let p = stack[d0 - 1] as int;
        assert(r[p].depth == d0 - 1);
        assert forall|k: int| p < k < i implies #[trigger] r[k].depth > r[p].depth by {
            assert(stack[d0 - 1] < k < i);
        }
        assert(parent_at(r, i, p));
    }
    assert forall|d: int| 0 <= d < ns.len() implies (#[trigger] ns[d]) < i + 1 && r[ns[d] as int].depth == d by {
        if d < d0 {
            assert(ns[d] == stack[d]);
        }
    }
    assert forall|d: int, k: int| #![trigger ns[d], r[k]] 0 <= d < ns.len() && ns[d] < k < i + 1 implies r[k].depth > d by {
        if d < d0 {
            assert(ns[d] == stack[d]);
            if k < i {
                assert(stack[d] < k < i);
            }
        }
    }
}

/// The parent of every node, as the depths of a pre-order walk give it;
/// none when the depths are not those of a walk.
#[verifier::rlimit(40)]
fn parents_from_depths(records: &Vec<RawNode>) -> (res: Option<Vec<Option<usize>>>)
    ensures
        res is Some <==> depths_ok(records_view(records@)),
        res matches Some(ps) ==> ps@.len() == records@.len()
            && forall|k: int| 0 <= k < ps@.len() ==> #[trigger] ps@[k] == parent_of(records_view(records@), k),
{
    let ghost r = records_view(records@);
    let n = records.len();
    if n == 0 {
        return Some(Vec::new());
    }
    if records[0].7 != 0 {
        assert(r[0] == raw_view(records@[0]));
        return None;
    }
    let mut parents: Vec<Option<usize>> = Vec::new();
    let mut stack: Vec<usize> = Vec::new();
    let mut i: usize = 0;
    proof {
        reveal(stack_ok);
    }
    while i < n
        invariant
            n == records@.len() == r.len(),
            r == records_view(records@),
            r[0].depth == 0,
            i <= n,
            parents@.len() == i,
            forall|k: int| 0 < k < i ==> 1 <= #[trigger] r[k].depth <= r[k - 1].depth + 1,
            forall|k: int| 0 <= k < i ==> #[trigger] parents@[k] == parent_of(r, k),
            stack_ok(r, stack@, i as int),
        decreases n - i,
    {
        let depth = records[i].7;
        assert(r[i as int] == raw_view(records@[i as int]));
        if i > 0 {
            let prev = records[i - 1].7;
            assert(r[i - 1] == raw_view(records@[i - 1]));
            if depth < 1 || depth as u64 > prev as u64 + 1 {
                assert(!(1 <= r[i as int].depth <= r[i - 1].depth + 1));
                return None;
            }
        }
        proof {
            lemma_stack_step(r, stack@, i as int);
            reveal(stack_ok);
        }
        if i == 0 {
            parents.push(None);
        } else {
            let p = stack[(depth - 1) as usize];
            proof {
                lemma_parent_unique(r, i as int, p as int);
            }
            parents.push(Some(p));
        }
        stack.truncate(depth as usize);
        stack.push(i);
        i = i + 1;
    }
    assert(depths_ok(r));
    Some(parents)
}

/// The children of each node, in order.
fn children_lists(nodes: &Vec<SyntaxNode>) -> (res: Vec<Vec<usize>>)
    requires
        tree_wf(nodes_view(nodes@)),
    ensures
        res@.len() == nodes@.len(),
        forall|q: int| 0 <= q < res@.len() ==> (#[trigger] res@[q])@ == kids(nodes_view(nodes@), q),
{
    let ghost v = nodes_view(nodes@);
    let n = nodes.len();
    let mut children: Vec<Vec<usize>> = Vec::new();
    let mut j: usize = 0;
    while j < n
        invariant
            j <= n == nodes@.len(),
            children@.len() == j,
            forall|q: int| 0 <= q < j ==> (#[trigger] children@[q])@ == Seq::<usize>::empty(),
        decreases n - j,
    {
        children.push(Vec::new());
        j = j + 1;
    }
    let mut k: usize = 0;
    while k < n
        invariant
            k <= n == nodes@.len() == children@.len() == v.len(),
            v == nodes_view(nodes@),
            tree_wf(v),
            forall|q: int| 0 <= q < n ==> (#[trigger] children@[q])@ == kids_below(v, q, k as nat),
        decreases n - k,
    {
        assert(v[k as int] == nodes@[k as int]@);
        match nodes[k].parent {
            Some(p) => {
                let ghost before = children@;
                let mut list = children[p].clone();
                assert(list@ =~= before[p as int]@);
                list.push(k);
                children.set(p, list);
                proof {
                    assert forall|q: int| 0 <= q < n implies (#[trigger] children@[q])@ == kids_below(v, q, (k + 1) as nat) by {
                        if q != p {
                            assert(children@[q] == before[q]);
                        }
                    }
                }
            },
            None => {
                proof {
                    assert forall|q: int| 0 <= q < n implies (#[trigger] children@[q])@ == kids_below(v, q, (k + 1) as nat) by {
                    }
                }
            },
        }
        k = k + 1;
    }
    children
}

/// A syntax tree: its nodes in pre-order, each child after its parent, and
/// the children of each node.
pub struct SyntaxTree {
    nodes: Vec<SyntaxNode>,
    children: Vec<Vec<usize>>,
}

impl View for SyntaxTree {
    type V = Seq<SyntaxNodeV>;

    closed spec fn view(&self) -> Seq<SyntaxNodeV> {
        nodes_view(self.nodes@)
    }
}

impl SyntaxTree {
    #[verifier::type_invariant]
    spec fn inv(&self) -> bool {
        &&& tree_wf(nodes_view(self.nodes@))
        &&& self.children@.len() == self.nodes@.len()
        &&& forall|i: int| 0 <= i < self.children@.len() ==> (#[trigger] self.children@[i])@ == kids(nodes_view(self.nodes@), i)
    }

    /// The tree a pre-order list of nodes describes; none when the depths
    /// are not those of a walk.
    pub fn from_records(records: Vec<RawNode>) -> (res: Option<SyntaxTree>)
        ensures
            match res {
                Some(t) => tree_of(records_view(records@)) == Some(t@),
                None => tree_of(records_view(records@)) is None,
            },
    {
        let ghost r = records_view(records@);
        let parents = match parents_from_depths(&records) {
            Some(ps) => ps,
            None => {
                return None;
            },
        };
        let n = records.len();
        let mut nodes: Vec<SyntaxNode> = Vec::new();
        let mut i: usize = 0;
        while i < n
            invariant
                n == records@.len() == r.len() == parents@.len(),
                r == records_view(records@),
                depths_ok(r),
                forall|k: int| 0 <= k < n ==> #[trigger] parents@[k] == parent_of(r, k),
                i <= n,
                nodes@.len() == i,
                forall|k: int| 0 <= k < i ==> (#[trigger] nodes@[k])@ == node_of(r[k], parent_of(r, k)),
            decreases n - i,
        {
            let rec = &records[i];
            assert(r[i as int] == raw_view(*rec));
            let field = match &rec.1 {
                Some(f) => Some(owned(f.as_str())),
                None => None,
            };
            let node = SyntaxNode {
                kind: owned(rec.0.as_str()),
                field,
                named: rec.2,
                start_byte: rec.3,
                end_byte: rec.4,
                start_row: rec.5,
                end_row: rec.6,
                parent: parents[i],
            };
            assert(node@ == node_of(r[i as int], parent_of(r, i as int)));
            nodes.push(node);
            i = i + 1;
        }
        let ghost v = nodes_view(nodes@);
        assert(v =~= Seq::new(r.len(), |i: int| node_of(r[i], parent_of(r, i))));
        proof {
            assert forall|k: int| 0 <= k < v.len() implies match (#[trigger] v[k]).parent {
                Some(p) => p < k,
                None => k == 0,
            } by {
                assert(v[k] == node_of(r[k], parent_of(r, k)));
                if k > 0 {
                    lemma_parent_exists(r, k);
                    let p = choose|p: int| parent_at(r, k, p);
                    lemma_parent_unique(r, k, p);
                }
            }
        }
        let children = children_lists(&nodes);
        Some(SyntaxTree { nodes, children })
    }

    /// How many nodes the tree has.
    pub fn len(&self) -> (res: usize)
        ensures
            res == self@.len(),
    {
        self.nodes.len()
    }

    /// The node at `i`.
    pub fn node(&self, i: usize) -> (res: &SyntaxNode)
        requires
            i < self@.len(),
        ensures
            res@ == self@[i as int],
    {
        &self.nodes[i]
    }

    /// Each node but the root comes after its parent.
    pub fn parent(&self, i: usize) -> (res: Option<usize>)
        requires
            i < self@.len(),
        ensures
            res == self@[i as int].parent,
            res matches Some(p) ==> p < i,
            res is None ==> i == 0,
    {
        proof {
            use_type_invariant(self);
        }
        self.nodes[i].parent
    }

    /// The children of `i`, in order.
    pub fn children(&self, i: usize) -> (res: &Vec<usize>)
        requires
            i < self@.len(),
        ensures
            res@ == kids(self@, i as int),
    {
        proof {
            use_type_invariant(self);
        }
        &self.children[i]
    }

    /// The named children of `i`, in order.
    pub fn named_children(&self, i: usize) -> (res: Vec<usize>)
        requires
            i < self@.len(),
        ensures
            res@ == named_kids(self@, i as int),
    {
        let ghost v = self@;
        let _ = self.len();
        let ks = self.children(i);
        proof {
            lemma_kids(v, i as int);
        }
        let mut res: Vec<usize> = Vec::new();
        let mut m: usize = 0;
        while m < ks.len()
            invariant
                m <= ks@.len(),
                ks@ == kids(v, i as int),
                v == self@,
                forall|a: int| 0 <= a < ks@.len() ==> i < #[trigger] ks@[a] < v.len(),
                res@ == keep_named(v, ks@.take(m as int)),
            decreases ks@.len() - m,
        {
            assert(ks@.take(m + 1).drop_last() =~= ks@.take(m as int));
            assert(ks@.take(m + 1).last() == ks@[m as int]);
            let c = ks[m];
            if self.node(c).named {
                res.push(c);
            }
            m = m + 1;
        }
        assert(ks@.take(ks@.len() as int) =~= ks@);
        res
    }
}

/// The tree of a parse, when there is one.
pub open spec fn tree_opt_view(o: Option<SyntaxTree>) -> Option<Seq<SyntaxNodeV>> {
    match o {
        Some(t) => Some(t@),
        None => None,
    }
}

/// Parses `source` in the grammar of `language`.
pub fn parse_tree(language: Language, source: &str) -> (res: Option<SyntaxTree>)
    ensures
        tree_opt_view(res) == parsed_tree(language, source@),
{
    match syntax_records(language, source) {
        Some(records) => SyntaxTree::from_records(records),
        None => None,
    }
}

impl SyntaxTree {
    /// The child of `i` that fills field `f`.
    pub fn child_by_field(&self, i: usize, f: &str) -> (res: Option<usize>)
        requires
            i < self@.len(),
        ensures
            res == field_child(self@, i as int, f@),
            res matches Some(j) ==> i < j < self@.len(),
    {
        let ghost v = self@;
        let _ = self.len();
        proof {
            lemma_field_child(v, i as int, f@);
            lemma_kids(v, i as int);
        }
        let ks = self.children(i);
        let mut m: usize = 0;
        assert(ks@.skip(0) =~= ks@);
        while m < ks.len()
            invariant
                m <= ks@.len(),
                ks@ == kids(v, i as int),
                v == self@,
                forall|a: int| 0 <= a < ks@.len() ==> i < #[trigger] ks@[a] < v.len(),
                first_with_field(v, ks@, f@) == first_with_field(v, ks@.skip(m as int), f@),
            decreases ks@.len() - m,
        {
            let c = ks[m];
            assert(ks@.skip(m as int)[0] == c);
            assert(ks@.skip(m as int).drop_first() =~= ks@.skip(m + 1));
            let matched = match &self.node(c).field {
                Some(name) => str_eq(name.as_str(), f),
                None => false,
            };
            if matched {
                return Some(c);
            }
            m = m + 1;
        }
        assert(ks@.skip(m as int).len() == 0);
        None
    }

    /// The sibling just before `i`.
    pub fn prev_sibling(&self, i: usize) -> (res: Option<usize>)
        requires
            i < self@.len(),
        ensures
            res == prev_sibling(self@, i as int),
            res matches Some(j) ==> j < i,
    {
        let ghost v = self@;
        let n = self.len();
        match self.parent(i) {
            None => None,
            Some(p) => {
                proof {
                    lemma_sibling_before(v, p as int, i as int);
                }
                let mut k: usize = i;
                while k > p + 1
                    invariant
                        p < k <= i < n == v.len(),
                        v[i as int].parent == Some(p),
                        v == self@,
                        sibling_before(v, p as int, i as int) == sibling_before(v, p as int, k as int),
                    decreases k,
                {
                    let same = match self.node(k - 1).parent {
                        Some(q) => q == p,
                        None => false,
                    };
                    if same {
                        assert(v[k - 1].parent == Some(p));
                        assert(sibling_before(v, p as int, k as int) == Some((k - 1) as usize));
                        assert(v[i as int].parent == Some(p));
                        assert(prev_sibling(v, i as int) == sibling_before(v, p as int, i as int));
                        return Some(k - 1);
                    }
                    k = k - 1;
                }
                None
            },
        }
    }
}

/// The characters of the bytes a node spans, none when they are not UTF-8.
pub fn span_text_of(src: &[u8], n: &SyntaxNode) -> (res: String)
    ensures
        res@ == span_text(src@, n@),
{
    if n.start_byte <= n.end_byte && n.end_byte <= src.len() {
        let bytes = slice_subrange(src, n.start_byte, n.end_byte);
        match utf8_text(bytes) {
            Some(t) => t,
            None => empty_string(),
        }
    } else {
        empty_string()
    }
}

/// The trimmed text of a node.
pub fn node_text_of(src: &[u8], n: &SyntaxNode) -> (res: String)
    ensures
        res@ == node_text(src@, n@),
{
    let raw = span_text_of(src, n);
    trim(raw.as_str())
}

/// The trimmed text of a node when it is not empty.
pub fn node_text_if_non_empty_of(src: &[u8], n: &SyntaxNode) -> (res: Option<String>)
    ensures
        opt_text_view(res) == node_text_if_non_empty(src@, n@),
{
    let t = node_text_of(src, n);
    if t.as_str().unicode_len() > 0 {
        Some(t)
    } else {
        None
    }
}

} // verus!
