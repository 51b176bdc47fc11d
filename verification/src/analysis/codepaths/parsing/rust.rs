use vstd::prelude::*;
use crate::text::{concat, seq_contains, seq_ends_with, seq_starts_with, str_contains, str_ends_with, str_eq,
    str_starts_with, without_white, remove_white, chars_of, string_from_range, empty_string};
use crate::analysis::codepaths::types::{strings_view, lemma_strings_view_push, all_of_language};
use super::{ParseContext, ParseContextV, qualified_spec, line_of_row, row_line, functions_view, lemma_functions_push, ref_sites_view, add_ref, passed_to, passed_to_context, add_reference, call_sites_view, lemma_call_sites_push};
use crate::analysis::codepaths::types::{ReferenceSite, ReferenceSiteV, CallSite, CallSiteV, Language,
    FunctionArtifact, FunctionArtifactV, FileArtifact, FileArtifactV};
use vstd::utf8::encode_utf8;
use super::syntax::{parsed_tree, parse_tree, tree_opt_view, SyntaxNodeV, SyntaxTree, field_child, kids, named_kids, node_text, node_text_if_non_empty,
    prev_sibling, span_text, lemma_kids, lemma_named_kids, lemma_field_child, span_text_of, node_text_of,
    node_text_if_non_empty_of, opt_text_view};

verus! {

// ---------------------------------------------------------------------
// Attributes
// ---------------------------------------------------------------------

/// What an attribute is checked for: `cfg(test)` (`cfg`), or a test mark.
pub open spec fn attr_hit(t: Seq<char>, cfg: bool) -> bool {
    if cfg { cfg_test_attr(t) } else { test_attr(t) }
}

/// Some attribute in the run of attribute items just before node `i`
/// is a hit.
pub open spec fn attr_run_any(v: Seq<SyntaxNodeV>, src: Seq<u8>, i: int, cfg: bool) -> bool
    decreases i,
{
    match prev_sibling(v, i) {
        Some(j) => if j < i && v[j as int].kind == "attribute_item"@ {
            attr_hit(span_text(src, v[j as int]), cfg) || attr_run_any(v, src, j as int, cfg)
        } else {
            false
        },
        None => false,
    }
}

/// An attribute that puts code under `cfg(test)`.
pub open spec fn cfg_test_attr(t: Seq<char>) -> bool {
    seq_contains(t, "cfg(test)"@)
}

/// What stands between `#[` and `]` of an attribute, white space taken out;
/// nothing when it is not bracketed so.
pub open spec fn attr_inner(t: Seq<char>) -> Seq<char> {
    let c = without_white(t);
    if c.len() >= 3 && seq_starts_with(c, "#["@) && c.last() == ']' {
        c.subrange(2, c.len() - 1)
    } else {
        Seq::empty()
    }
}

/// An attribute that marks a test function: `#[test]`, `#[test(..)]`,
/// `#[x::test]`, `#[x::test(..)]`, or one under `cfg(test)`.
pub open spec fn test_attr(t: Seq<char>) -> bool {
    let inner = attr_inner(t);
    inner == "test"@ || seq_starts_with(inner, "test("@) || seq_ends_with(inner, "::test"@)
        || seq_contains(inner, "::test("@) || seq_contains(inner, "cfg(test)"@)
}

pub open spec fn has_cfg_test_attr(v: Seq<SyntaxNodeV>, src: Seq<u8>, i: int) -> bool {
    attr_run_any(v, src, i, true)
}

pub open spec fn has_test_attr(v: Seq<SyntaxNodeV>, src: Seq<u8>, i: int) -> bool {
    attr_run_any(v, src, i, false)
}

/// Whether an attribute's text marks a test function.
pub fn is_test_attr(t: &str) -> (res: bool)
    ensures
        res == test_attr(t@),
{
    let compact = remove_white(t);
    let chars = chars_of(compact.as_str());
    let n = chars.len();
    let inner = if n >= 3 && str_starts_with(compact.as_str(), "#[") && chars[n - 1] == ']' {
        string_from_range(chars.as_slice(), 2, n - 1)
    } else {
        empty_string()
    };
    let s = inner.as_str();
    str_eq(s, "test") || str_starts_with(s, "test(") || str_ends_with(s, "::test") || str_contains(s, "::test(")
        || str_contains(s, "cfg(test)")
}

/// Whether the attributes just before node `i` put it under `cfg(test)`
/// (`cfg == true`) or mark it as a test (`cfg == false`).
fn attrs_match(t: &SyntaxTree, src: &[u8], i: usize, cfg: bool) -> (res: bool)
    requires
        i < t@.len(),
    ensures
        cfg ==> res == has_cfg_test_attr(t@, src@, i as int),
        !cfg ==> res == has_test_attr(t@, src@, i as int),
{
    let ghost v = t@;
    let mut cur = i;
    loop
        invariant
            cur < v.len(),
            v == t@,
            attr_run_any(v, src@, i as int, cfg) == attr_run_any(v, src@, cur as int, cfg),
        decreases cur,
    {
        match t.prev_sibling(cur) {
            Some(j) => {
                let node = t.node(j);
                if !str_eq(node.kind.as_str(), "attribute_item") {
                    return false;
                }
                let text = span_text_of(src, node);
                let hit = if cfg { str_contains(text.as_str(), "cfg(test)") } else { is_test_attr(text.as_str()) };
                if hit {
                    return true;
                }
                cur = j;
            },
            None => {
                return false;
            },
        }
    }
}

// ---------------------------------------------------------------------
// Names
// ---------------------------------------------------------------------

/// The name a call expression calls through its function node: the text of
/// a path or field access, of the function of a generic call, and else the
/// node's text.
pub open spec fn rs_callee(v: Seq<SyntaxNodeV>, src: Seq<u8>, i: int) -> Seq<char>
    decreases v.len() - i,
{
    if !(0 <= i < v.len()) {
        Seq::empty()
    } else if v[i].kind == "identifier"@ || v[i].kind == "scoped_identifier"@ || v[i].kind == "field_expression"@ {
        span_text(src, v[i])
    } else if v[i].kind == "generic_function"@ {
        match field_child(v, i, "function"@) {
            Some(c) => if i < c < v.len() { rs_callee(v, src, c as int) } else { Seq::empty() },
            None => if kids(v, i).len() > 0 && i < kids(v, i)[0] < v.len() {
                rs_callee(v, src, kids(v, i)[0] as int)
            } else {
                Seq::empty()
            },
        }
    } else {
        span_text(src, v[i])
    }
}

/// The name a call expression calls through its function node.
pub fn callee_name(t: &SyntaxTree, src: &[u8], i: usize) -> (res: String)
    requires
        i < t@.len(),
    ensures
        res@ == rs_callee(t@, src@, i as int),
    decreases t@.len() - i,
{
    let node = t.node(i);
    let k = node.kind.as_str();
    if str_eq(k, "identifier") || str_eq(k, "scoped_identifier") || str_eq(k, "field_expression") {
        return span_text_of(src, node);
    }
    if str_eq(k, "generic_function") {
        match t.child_by_field(i, "function") {
            Some(c) => callee_name(t, src, c),
            None => {
                let _ = t.len();
                proof {
                    lemma_kids(t@, i as int);
                }
                let ks = t.children(i);
                if ks.len() > 0 {
                    callee_name(t, src, ks[0])
                } else {
                    empty_string()
                }
            },
        }
    } else {
        span_text_of(src, node)
    }
}

/// The function an argument names, when it is a path or a generic
/// function's path.
pub open spec fn rs_ref_name(v: Seq<SyntaxNodeV>, src: Seq<u8>, i: int) -> Option<Seq<char>>
    decreases v.len() - i,
{
    if !(0 <= i < v.len()) {
        None
    } else if v[i].kind == "identifier"@ || v[i].kind == "scoped_identifier"@ {
        node_text_if_non_empty(src, v[i])
    } else if v[i].kind == "generic_function"@ {
        if named_kids(v, i).len() > 0 && i < named_kids(v, i)[0] < v.len() {
            rs_ref_name(v, src, named_kids(v, i)[0] as int)
        } else {
            None
        }
    } else {
        None
    }
}

/// The function an argument names.
pub fn reference_name(t: &SyntaxTree, src: &[u8], i: usize) -> (res: Option<String>)
    requires
        i < t@.len(),
    ensures
        opt_text_view(res) == rs_ref_name(t@, src@, i as int),
    decreases t@.len() - i,
{
    let node = t.node(i);
    let k = node.kind.as_str();
    if str_eq(k, "identifier") || str_eq(k, "scoped_identifier") {
        return node_text_if_non_empty_of(src, node);
    }
    if str_eq(k, "generic_function") {
        let _ = t.len();
        proof {
            lemma_named_kids(t@, i as int);
        }
        let named = t.named_children(i);
        if named.len() > 0 {
            reference_name(t, src, named[0])
        } else {
            None
        }
    } else {
        None
    }
}

// ---------------------------------------------------------------------
// Branch conditions
// ---------------------------------------------------------------------

/// Whether node `d` starts inside the `else` branch of `if_node`.
pub open spec fn in_else_branch(v: Seq<SyntaxNodeV>, if_node: int, d: int) -> bool {
    match field_child(v, if_node, "alternative"@) {
        Some(a) => a < v.len() && 0 <= d < v.len() && v[a as int].start_byte <= v[d].start_byte < v[a as int].end_byte,
        None => false,
    }
}

/// The condition an `if` puts on its branches: `value is pattern` for an
/// `if let`, the condition's text otherwise.
pub open spec fn if_condition_text(v: Seq<SyntaxNodeV>, src: Seq<u8>, c: int) -> Seq<char> {
    let whole = node_text(src, v[c]);
    if v[c].kind == "let_condition"@ {
        match (field_child(v, c, "pattern"@), field_child(v, c, "value"@)) {
            (Some(p), Some(val)) => {
                let pt = node_text(src, v[p as int]);
                let vt = node_text(src, v[val as int]);
                if pt.len() > 0 && vt.len() > 0 { vt + " is "@ + pt } else { whole }
            },
            _ => whole,
        }
    } else {
        whole
    }
}

/// The condition that node `j` puts on the call at `call`, if any.
pub open spec fn rs_condition_at(v: Seq<SyntaxNodeV>, src: Seq<u8>, j: int, call: int) -> Seq<Seq<char>> {
    if v[j].kind == "if_expression"@ {
        match field_child(v, j, "condition"@) {
            Some(c) => {
                if node_text(src, v[c as int]).len() == 0 {
                    Seq::empty()
                } else {
                    let text = if_condition_text(v, src, c as int);
                    if in_else_branch(v, j, call) { seq!["!("@ + text + ")"@] } else { seq![text] }
                }
            },
            None => Seq::empty(),
        }
    } else if v[j].kind == "match_arm"@ {
        match field_child(v, j, "pattern"@) {
            Some(p) => {
                let t = node_text(src, v[p as int]);
                if t.len() > 0 && t != "_"@ { seq![t] } else { Seq::empty() }
            },
            None => Seq::empty(),
        }
    } else {
        Seq::empty()
    }
}

/// Law: an `if` puts opposite conditions on its two branches. A call that
/// starts inside the `if`'s `else` branch runs under `!(c)`, where `c` is
/// the text of the `if`'s condition, never under `c` itself; any other call
/// under the `if` runs under `c`.
pub proof fn law_rs_else_branch_negated(v: Seq<SyntaxNodeV>, src: Seq<u8>, j: int, call: int)
    requires
        0 <= j < v.len(),
        0 <= call < v.len(),
        v[j].kind == "if_expression"@,
        field_child(v, j, "condition"@) matches Some(c) && node_text(src, v[c as int]).len() > 0,
    ensures
        ({
            let c = field_child(v, j, "condition"@)->0 as int;
            let t = if_condition_text(v, src, c);
            let in_else = field_child(v, j, "alternative"@) matches Some(a) && a < v.len()
                && v[a as int].start_byte <= v[call].start_byte < v[a as int].end_byte;
            &&& in_else ==> rs_condition_at(v, src, j, call) == seq!["!("@ + t + ")"@]
            &&& !in_else ==> rs_condition_at(v, src, j, call) == seq![t]
        }),
{
}

/// The conditions of the nodes from `j` up to the enclosing function,
/// outermost first.
pub open spec fn rs_conditions_from(v: Seq<SyntaxNodeV>, src: Seq<u8>, j: int, call: int) -> Seq<Seq<char>>
    decreases j + 1,
{
    if j < 0 || j >= v.len() || v[j].kind == "function_item"@ {
        Seq::empty()
    } else {
        let up = match v[j].parent {
            Some(p) => if p < j { p as int } else { -1 },
            None => -1,
        };
        rs_conditions_from(v, src, up, call) + rs_condition_at(v, src, j, call)
    }
}

/// The branch conditions under which the call at `call` runs, outermost
/// first: the `if` conditions (negated in `else` branches) and the match
/// patterns around it within its function.
pub open spec fn rs_conditions(v: Seq<SyntaxNodeV>, src: Seq<u8>, call: int) -> Seq<Seq<char>> {
    match v[call].parent {
        Some(p) => if p < call { rs_conditions_from(v, src, p as int, call) } else { Seq::empty() },
        None => Seq::empty(),
    }
}

/// Whether the call at `call` starts in the `else` branch of `if_node`.
pub fn is_in_else_branch(t: &SyntaxTree, if_node: usize, call: usize) -> (res: bool)
    requires
        if_node < t@.len(),
        call < t@.len(),
    ensures
        res == in_else_branch(t@, if_node as int, call as int),
{
    match t.child_by_field(if_node, "alternative") {
        Some(a) => {
            let alt = t.node(a);
            let d = t.node(call);
            alt.start_byte <= d.start_byte && d.start_byte < alt.end_byte
        },
        None => false,
    }
}

/// The condition that node `j` puts on the call at `call`, if any.
fn condition_at(t: &SyntaxTree, src: &[u8], j: usize, call: usize) -> (res: Vec<String>)
    requires
        j < t@.len(),
        call < t@.len(),
    ensures
        strings_view(res@) == rs_condition_at(t@, src@, j as int, call as int),
{
    let node = t.node(j);
    let mut res: Vec<String> = Vec::new();
    if str_eq(node.kind.as_str(), "if_expression") {
        if let Some(c) = t.child_by_field(j, "condition") {
            let whole = node_text_of(src, t.node(c));
            if whole.as_str().unicode_len() > 0 {
                let mut text = whole;
                if str_eq(t.node(c).kind.as_str(), "let_condition") {
                    match (t.child_by_field(c, "pattern"), t.child_by_field(c, "value")) {
                        (Some(p), Some(val)) => {
                            let pt = node_text_of(src, t.node(p));
                            let vt = node_text_of(src, t.node(val));
                            if pt.as_str().unicode_len() > 0 && vt.as_str().unicode_len() > 0 {
                                let head = concat(vt.as_str(), " is ");
                                text = concat(head.as_str(), pt.as_str());
                            }
                        },
                        _ => {},
                    }
                }
                if is_in_else_branch(t, j, call) {
                    let head = concat("!(", text.as_str());
                    res.push(concat(head.as_str(), ")"));
                } else {
                    res.push(text);
                }
            }
        }
    } else if str_eq(node.kind.as_str(), "match_arm") {
        if let Some(p) = t.child_by_field(j, "pattern") {
            let text = node_text_of(src, t.node(p));
            if text.as_str().unicode_len() > 0 && !str_eq(text.as_str(), "_") {
                res.push(text);
            }
        }
    }
    assert(strings_view(res@) =~= rs_condition_at(t@, src@, j as int, call as int));
    res
}

/// The conditions of the nodes from `j` up to the enclosing function,
/// outermost first.
fn conditions_from(t: &SyntaxTree, src: &[u8], j: Option<usize>, call: usize) -> (res: Vec<String>)
    requires
        call < t@.len(),
        j matches Some(x) ==> x < t@.len(),
    ensures
        strings_view(res@)
            == rs_conditions_from(t@, src@, match j { Some(x) => x as int, None => -1 }, call as int),
    decreases match j { Some(x) => x as int + 1, None => 0 },
{
    match j {
        None => {
            let res: Vec<String> = Vec::new();
            assert(strings_view(res@) =~= Seq::<Seq<char>>::empty());
            res
        },
        Some(x) => {
            if str_eq(t.node(x).kind.as_str(), "function_item") {
                let res: Vec<String> = Vec::new();
                assert(strings_view(res@) =~= Seq::<Seq<char>>::empty());
                return res;
            }
            let up = t.parent(x);
            let mut res = conditions_from(t, src, up, call);
            let ghost mid = strings_view(res@);
            let here = condition_at(t, src, x, call);
            let ghost hv = strings_view(here@);
            let mut m: usize = 0;
            while m < here.len()
                invariant
                    m <= here@.len(),
                    hv == strings_view(here@),
                    strings_view(res@) == mid + hv.take(m as int),
                decreases here@.len() - m,
            {
                let item = concat(here[m].as_str(), "");
                proof {
                    reveal_strlit("");
                }
                assert(item@ == hv[m as int]);
                proof {
                    lemma_strings_view_push(res@, item);
                }
                res.push(item);
                m = m + 1;
                assert(strings_view(res@) =~= mid + hv.take(m as int));
            }
            assert(hv.take(here@.len() as int) =~= hv);
            res
        },
    }
}

/// The branch conditions under which the call at `call` runs.
pub fn conditions_of(t: &SyntaxTree, src: &[u8], call: usize) -> (res: Vec<String>)
    requires
        call < t@.len(),
    ensures
        strings_view(res@) == rs_conditions(t@, src@, call as int),
{
    let p = t.parent(call);
    conditions_from(t, src, p, call)
}

// ---------------------------------------------------------------------
// Functions passed as arguments
// ---------------------------------------------------------------------

/// The references in the arguments of the call at `call`, added to `refs`.
pub open spec fn rs_arg_refs(v: Seq<SyntaxNodeV>, src: Seq<u8>, call: int, refs: Seq<ReferenceSiteV>)
    -> Seq<ReferenceSiteV>
    decreases v.len() - call, 3nat, 0int,
{
    if !(0 <= call < v.len()) {
        refs
    } else {
        match (field_child(v, call, "function"@), field_child(v, call, "arguments"@)) {
            (Some(f), Some(a)) => if call < a < v.len() {
                rs_ref_args(v, src, a as int, 0, rs_callee(v, src, f as int), refs)
            } else {
                refs
            },
            _ => refs,
        }
    }
}

/// The references in the named children of `a` from the `k`-th on.
pub open spec fn rs_ref_args(v: Seq<SyntaxNodeV>, src: Seq<u8>, a: int, k: int, callee: Seq<char>,
    refs: Seq<ReferenceSiteV>) -> Seq<ReferenceSiteV>
    decreases v.len() - a, 1nat, named_kids(v, a).len() - k,
{
    if !(0 <= a < v.len()) || k < 0 || k >= named_kids(v, a).len() {
        refs
    } else {
        let c = named_kids(v, a)[k];
        let next = if a < c < v.len() { rs_ref_exprs(v, src, c as int, callee, refs) } else { refs };
        rs_ref_args(v, src, a, k + 1, callee, next)
    }
}

/// The references within node `i`, an argument passed to `callee`: a path
/// is one; a call contributes those of its own arguments; a nested
/// function contributes none.
pub open spec fn rs_ref_exprs(v: Seq<SyntaxNodeV>, src: Seq<u8>, i: int, callee: Seq<char>,
    refs: Seq<ReferenceSiteV>) -> Seq<ReferenceSiteV>
    decreases v.len() - i, 4nat, 0int,
{
    if !(0 <= i < v.len()) || v[i].kind == "function_item"@ {
        refs
    } else if v[i].kind == "call_expression"@ {
        rs_arg_refs(v, src, i, refs)
    } else {
        match rs_ref_name(v, src, i) {
            Some(t) => add_ref(refs, t, passed_to(callee)),
            None => rs_ref_children(v, src, i, 0, callee, refs),
        }
    }
}

/// The references within the children of `i` from the `k`-th on.
pub open spec fn rs_ref_children(v: Seq<SyntaxNodeV>, src: Seq<u8>, i: int, k: int, callee: Seq<char>,
    refs: Seq<ReferenceSiteV>) -> Seq<ReferenceSiteV>
    decreases v.len() - i, 2nat, kids(v, i).len() - k,
{
    if !(0 <= i < v.len()) || k < 0 || k >= kids(v, i).len() {
        refs
    } else {
        let c = kids(v, i)[k];
        let next = if i < c < v.len() { rs_ref_exprs(v, src, c as int, callee, refs) } else { refs };
        rs_ref_children(v, src, i, k + 1, callee, next)
    }
}

/// Adds the references in the arguments of the call at `call`.
fn arg_refs(t: &SyntaxTree, src: &[u8], call: usize, refs: &mut Vec<ReferenceSite>)
    requires
        call < t@.len(),
    ensures
        ref_sites_view(final(refs)@) == rs_arg_refs(t@, src@, call as int, ref_sites_view(old(refs)@)),
    decreases t@.len() - call, 3nat, 0int,
{
    match (t.child_by_field(call, "function"), t.child_by_field(call, "arguments")) {
        (Some(f), Some(a)) => {
            let callee = callee_name(t, src, f);
            let _ = t.len();
            let named = t.named_children(a);
            proof {
                lemma_named_kids(t@, a as int);
            }
            let mut k: usize = 0;
            while k < named.len()
                invariant
                    a < t@.len(),
                    call < a,
                    named@ == named_kids(t@, a as int),
                    forall|m: int| 0 <= m < named@.len() ==> a < #[trigger] named@[m] < t@.len(),
                    k <= named@.len(),
                    rs_arg_refs(t@, src@, call as int, ref_sites_view(old(refs)@))
                        == rs_ref_args(t@, src@, a as int, k as int, callee@, ref_sites_view(refs@)),
                decreases named@.len() - k,
            {
                ref_exprs(t, src, named[k], callee.as_str(), refs);
                k = k + 1;
            }
        },
        _ => {},
    }
}

/// Adds the references within node `i`, an argument passed to `callee`.
fn ref_exprs(t: &SyntaxTree, src: &[u8], i: usize, callee: &str, refs: &mut Vec<ReferenceSite>)
    requires
        i < t@.len(),
    ensures
        ref_sites_view(final(refs)@) == rs_ref_exprs(t@, src@, i as int, callee@, ref_sites_view(old(refs)@)),
    decreases t@.len() - i, 4nat, 0int,
{
    let node = t.node(i);
    if str_eq(node.kind.as_str(), "function_item") {
        return;
    }
    if str_eq(node.kind.as_str(), "call_expression") {
        arg_refs(t, src, i, refs);
        return;
    }
    match reference_name(t, src, i) {
        Some(target) => {
            let context = passed_to_context(callee);
            add_reference(refs, target, context);
        },
        None => {
            let _ = t.len();
            proof {
                lemma_kids(t@, i as int);
            }
            let ks = t.children(i);
            let mut k: usize = 0;
            while k < ks.len()
                invariant
                    i < t@.len(),
                    ks@ == kids(t@, i as int),
                    forall|m: int| 0 <= m < ks@.len() ==> i < #[trigger] ks@[m] < t@.len(),
                    k <= ks@.len(),
                    rs_ref_children(t@, src@, i as int, 0, callee@, ref_sites_view(old(refs)@))
                        == rs_ref_children(t@, src@, i as int, k as int, callee@, ref_sites_view(refs@)),
                decreases ks@.len() - k,
            {
                ref_exprs(t, src, ks[k], callee, refs);
                k = k + 1;
            }
        },
    }
}

// ---------------------------------------------------------------------
// Calls, in bodies and in macro invocations
// ---------------------------------------------------------------------

/// What a token tree holds between its delimiters; the whole text when it
/// is not delimited.
pub open spec fn strip_delims(t: Seq<char>) -> Seq<char> {
    if t.len() >= 1 && (t[0] == '{' || t[0] == '(' || t[0] == '[') {
        let s = t.drop_first();
        if s.len() >= 1 && (s.last() == '}' || s.last() == ')' || s.last() == ']') { s.drop_last() } else { t }
    } else {
        t
    }
}

/// A macro body wrapped in a function, so that it parses as Rust.
pub open spec fn synthetic_body(inner: Seq<char>) -> Seq<char> {
    "fn __macro_body() { "@ + inner + " }"@
}

/// The first node of `ks` of kind `kind`.
pub open spec fn first_of_kind(v: Seq<SyntaxNodeV>, ks: Seq<usize>, kind: Seq<char>) -> Option<usize>
    decreases ks.len(),
{
    if ks.len() == 0 {
        None
    } else if ks[0] < v.len() && v[ks[0] as int].kind == kind {
        Some(ks[0])
    } else {
        first_of_kind(v, ks.drop_first(), kind)
    }
}

pub proof fn lemma_first_of_kind(v: Seq<SyntaxNodeV>, ks: Seq<usize>, kind: Seq<char>)
    ensures
        first_of_kind(v, ks, kind) matches Some(j) ==> ks.contains(j) && j < v.len(),
    decreases ks.len(),
{
    if ks.len() > 0 {
        lemma_first_of_kind(v, ks.drop_first(), kind);
        if let Some(j) = first_of_kind(v, ks.drop_first(), kind) {
            if !(ks[0] < v.len() && v[ks[0] as int].kind == kind) {
                let m = choose|m: int| 0 <= m < ks.drop_first().len() && ks.drop_first()[m] == j;
                assert(ks[m + 1] == j);
            }
        }
    }
}

/// The call at `call` when it names its callee, with no conditions.
pub open spec fn bare_call(v: Seq<SyntaxNodeV>, src: Seq<u8>, call: int, calls: Seq<CallSiteV>) -> Seq<CallSiteV> {
    match field_child(v, call, "function"@) {
        Some(f) => {
            let raw = rs_callee(v, src, f as int);
            if raw.len() > 0 { calls.push(CallSiteV { callee_name: raw, conditions: Seq::empty() }) } else { calls }
        },
        None => calls,
    }
}

/// The calls in a re-read macro body, from node `j` of its tree `t` (whose
/// source bytes are `s`) on. A function's body is walked; a nested macro is
/// re-read in turn while its body is shorter than `bound`.
pub open spec fn rs_synth(t: Seq<SyntaxNodeV>, s: Seq<u8>, j: int, bound: nat, calls: Seq<CallSiteV>) -> Seq<CallSiteV>
    decreases bound, t.len() - j, 2nat, 0int,
{
    if !(0 <= j < t.len()) {
        calls
    } else if t[j].kind == "function_item"@ {
        match field_child(t, j, "body"@) {
            Some(b) => if j < b < t.len() { rs_synth(t, s, b as int, bound, calls) } else { calls },
            None => calls,
        }
    } else {
        let c1 = if t[j].kind == "call_expression"@ { bare_call(t, s, j, calls) } else { calls };
        if t[j].kind == "macro_invocation"@ {
            rs_synth_macro(t, s, j, bound, c1)
        } else {
            rs_synth_children(t, s, j, 0, bound, c1)
        }
    }
}

/// The calls of a nested macro's body, re-read when it is shorter than `bound`.
pub open spec fn rs_synth_macro(t: Seq<SyntaxNodeV>, s: Seq<u8>, j: int, bound: nat, calls: Seq<CallSiteV>)
    -> Seq<CallSiteV>
    decreases bound, t.len() - j, 1nat, 0int,
{
    if !(0 <= j < t.len()) {
        calls
    } else {
        match first_of_kind(t, kids(t, j), "token_tree"@) {
            Some(tt) => if tt < t.len() {
                let inner = strip_delims(span_text(s, t[tt as int]));
                if inner.len() < bound {
                    match parsed_tree(Language::Rust, synthetic_body(inner)) {
                        Some(t2) => rs_synth(t2, encode_utf8(synthetic_body(inner)), 0, inner.len(), calls),
                        None => calls,
                    }
                } else {
                    calls
                }
            } else {
                calls
            },
            None => calls,
        }
    }
}

pub open spec fn rs_synth_children(t: Seq<SyntaxNodeV>, s: Seq<u8>, j: int, k: int, bound: nat, calls: Seq<CallSiteV>)
    -> Seq<CallSiteV>
    decreases bound, t.len() - j, 0nat, kids(t, j).len() - k,
{
    if !(0 <= j < t.len()) || k < 0 || k >= kids(t, j).len() {
        calls
    } else {
        let c = kids(t, j)[k];
        let next = if j < c < t.len() { rs_synth(t, s, c as int, bound, calls) } else { calls };
        rs_synth_children(t, s, j, k + 1, bound, next)
    }
}

/// The calls in the body of the macro invocation at `i`: its token tree,
/// without delimiters, wrapped in a function and parsed as Rust.
pub open spec fn rs_macro_calls(v: Seq<SyntaxNodeV>, src: Seq<u8>, i: int, calls: Seq<CallSiteV>) -> Seq<CallSiteV> {
    match first_of_kind(v, kids(v, i), "token_tree"@) {
        Some(tt) => if tt < v.len() {
            let inner = strip_delims(span_text(src, v[tt as int]));
            match parsed_tree(Language::Rust, synthetic_body(inner)) {
                Some(t2) => rs_synth(t2, encode_utf8(synthetic_body(inner)), 0, inner.len(), calls),
                None => calls,
            }
        } else {
            calls
        },
        None => calls,
    }
}

/// The call sites and the references of the code at node `i` on: each
/// call with its callee and conditions, the functions passed in its
/// arguments, and the calls in macro bodies; nested functions are skipped.
pub open spec fn rs_calls(v: Seq<SyntaxNodeV>, src: Seq<u8>, i: int, acc: (Seq<CallSiteV>, Seq<ReferenceSiteV>))
    -> (Seq<CallSiteV>, Seq<ReferenceSiteV>)
    decreases v.len() - i, 1nat, 0int,
{
    if !(0 <= i < v.len()) || v[i].kind == "function_item"@ {
        acc
    } else {
        let acc1 = if v[i].kind == "call_expression"@ {
            let calls = match field_child(v, i, "function"@) {
                Some(f) => {
                    let raw = rs_callee(v, src, f as int);
                    if raw.len() > 0 {
                        acc.0.push(CallSiteV { callee_name: raw, conditions: rs_conditions(v, src, i) })
                    } else {
                        acc.0
                    }
                },
                None => acc.0,
            };
            (calls, rs_arg_refs(v, src, i, acc.1))
        } else {
            acc
        };
        if v[i].kind == "macro_invocation"@ {
            (rs_macro_calls(v, src, i, acc1.0), acc1.1)
        } else {
            rs_calls_children(v, src, i, 0, acc1)
        }
    }
}

pub open spec fn rs_calls_children(v: Seq<SyntaxNodeV>, src: Seq<u8>, i: int, k: int,
    acc: (Seq<CallSiteV>, Seq<ReferenceSiteV>)) -> (Seq<CallSiteV>, Seq<ReferenceSiteV>)
    decreases v.len() - i, 0nat, kids(v, i).len() - k,
{
    if !(0 <= i < v.len()) || k < 0 || k >= kids(v, i).len() {
        acc
    } else {
        let c = kids(v, i)[k];
        let next = if i < c < v.len() { rs_calls(v, src, c as int, acc) } else { acc };
        rs_calls_children(v, src, i, k + 1, next)
    }
}

/// What a token tree holds between its delimiters.
pub fn strip_delimiters(t: &str) -> (res: String)
    ensures
        res@ == strip_delims(t@),
{
    let chars = chars_of(t);
    let n = chars.len();
    if n >= 1 && (chars[0] == '{' || chars[0] == '(' || chars[0] == '[') {
        if n >= 2 && (chars[n - 1] == '}' || chars[n - 1] == ')' || chars[n - 1] == ']') {
            assert(t@.drop_first().drop_last() =~= t@.subrange(1, n - 1));
            return string_from_range(chars.as_slice(), 1, n - 1);
        }
    }
    assert(t@.subrange(0, n as int) =~= t@);
    string_from_range(chars.as_slice(), 0, n)
}

/// The first child of `i` of kind `kind`.
fn first_child_of_kind(t: &SyntaxTree, i: usize, kind: &str) -> (res: Option<usize>)
    requires
        i < t@.len(),
    ensures
        res == first_of_kind(t@, kids(t@, i as int), kind@),
        res matches Some(j) ==> j < t@.len(),
{
    let ghost v = t@;
    let _ = t.len();
    proof {
        lemma_kids(v, i as int);
        lemma_first_of_kind(v, kids(v, i as int), kind@);
    }
    let ks = t.children(i);
    let mut m: usize = 0;
    assert(ks@.skip(0) =~= ks@);
    while m < ks.len()
        invariant
            m <= ks@.len(),
            ks@ == kids(v, i as int),
            v == t@,
            forall|a: int| 0 <= a < ks@.len() ==> #[trigger] ks@[a] < v.len(),
            first_of_kind(v, ks@, kind@) == first_of_kind(v, ks@.skip(m as int), kind@),
        decreases ks@.len() - m,
    {
        let c = ks[m];
        assert(ks@.skip(m as int)[0] == c);
        assert(ks@.skip(m as int).drop_first() =~= ks@.skip(m + 1));
        if str_eq(t.node(c).kind.as_str(), kind) {
            return Some(c);
        }
        m = m + 1;
    }
    None
}

/// Adds the calls of a re-read macro body, from node `j` of its tree on.
fn synth_calls(t: &SyntaxTree, s: &[u8], j: usize, bound: usize, calls: &mut Vec<CallSite>)
    requires
        j < t@.len(),
    ensures
        call_sites_view(final(calls)@) == rs_synth(t@, s@, j as int, bound as nat, call_sites_view(old(calls)@)),
    decreases bound, t@.len() - j, 2nat, 0int,
{
    let node = t.node(j);
    if str_eq(node.kind.as_str(), "function_item") {
        match t.child_by_field(j, "body") {
            Some(b) => synth_calls(t, s, b, bound, calls),
            None => {},
        }
        return;
    }
    if str_eq(node.kind.as_str(), "call_expression") {
        match t.child_by_field(j, "function") {
            Some(f) => {
                let raw = callee_name(t, s, f);
                if raw.as_str().unicode_len() > 0 {
                    let site = CallSite { callee_name: raw, conditions: Vec::new() };
                    proof {
                        lemma_call_sites_push(calls@, site);
                        assert(site@.conditions =~= Seq::<Seq<char>>::empty());
                    }
                    calls.push(site);
                }
            },
            None => {},
        }
    }
    if str_eq(node.kind.as_str(), "macro_invocation") {
        synth_macro_calls(t, s, j, bound, calls);
        return;
    }
    let _ = t.len();
    proof {
        lemma_kids(t@, j as int);
    }
    let ks = t.children(j);
    let mut k: usize = 0;
    while k < ks.len()
        invariant
            j < t@.len(),
            ks@ == kids(t@, j as int),
            forall|m: int| 0 <= m < ks@.len() ==> j < #[trigger] ks@[m] < t@.len(),
            k <= ks@.len(),
            rs_synth(t@, s@, j as int, bound as nat, call_sites_view(old(calls)@))
                == rs_synth_children(t@, s@, j as int, k as int, bound as nat, call_sites_view(calls@)),
        decreases ks@.len() - k,
    {
        synth_calls(t, s, ks[k], bound, calls);
        k = k + 1;
    }
}

/// Adds the calls of a nested macro's body, re-read when shorter than `bound`.
fn synth_macro_calls(t: &SyntaxTree, s: &[u8], j: usize, bound: usize, calls: &mut Vec<CallSite>)
    requires
        j < t@.len(),
    ensures
        call_sites_view(final(calls)@) == rs_synth_macro(t@, s@, j as int, bound as nat, call_sites_view(old(calls)@)),
    decreases bound, t@.len() - j, 1nat, 0int,
{
    match first_child_of_kind(t, j, "token_tree") {
        Some(tt) => {
            let text = span_text_of(s, t.node(tt));
            let inner = strip_delimiters(text.as_str());
            let len = inner.as_str().unicode_len();
            if len < bound {
                let head = concat("fn __macro_body() { ", inner.as_str());
                let body = concat(head.as_str(), " }");
                match parse_tree(Language::Rust, body.as_str()) {
                    Some(t2) => {
                        if t2.len() > 0 {
                            synth_calls(&t2, body.as_str().as_bytes(), 0, len, calls);
                        }
                    },
                    None => {},
                }
            }
        },
        None => {},
    }
}

/// Adds the calls in the body of the macro invocation at `i`.
fn macro_calls(t: &SyntaxTree, src: &[u8], i: usize, calls: &mut Vec<CallSite>)
    requires
        i < t@.len(),
    ensures
        call_sites_view(final(calls)@) == rs_macro_calls(t@, src@, i as int, call_sites_view(old(calls)@)),
{
    match first_child_of_kind(t, i, "token_tree") {
        Some(tt) => {
            let text = span_text_of(src, t.node(tt));
            let inner = strip_delimiters(text.as_str());
            let len = inner.as_str().unicode_len();
            let head = concat("fn __macro_body() { ", inner.as_str());
            let body = concat(head.as_str(), " }");
            match parse_tree(Language::Rust, body.as_str()) {
                Some(t2) => {
                    if t2.len() > 0 {
                        synth_calls(&t2, body.as_str().as_bytes(), 0, len, calls);
                    }
                },
                None => {},
            }
        },
        None => {},
    }
}

/// Adds the call sites and references of the code at node `i` on.
fn calls_in(t: &SyntaxTree, src: &[u8], i: usize, calls: &mut Vec<CallSite>, refs: &mut Vec<ReferenceSite>)
    requires
        i < t@.len(),
    ensures
        (call_sites_view(final(calls)@), ref_sites_view(final(refs)@))
            == rs_calls(t@, src@, i as int, (call_sites_view(old(calls)@), ref_sites_view(old(refs)@))),
    decreases t@.len() - i, 1nat, 0int,
{
    let node = t.node(i);
    if str_eq(node.kind.as_str(), "function_item") {
        return;
    }
    if str_eq(node.kind.as_str(), "call_expression") {
        match t.child_by_field(i, "function") {
            Some(f) => {
                let raw = callee_name(t, src, f);
                if raw.as_str().unicode_len() > 0 {
                    let conditions = conditions_of(t, src, i);
                    let site = CallSite { callee_name: raw, conditions };
                    proof {
                        lemma_call_sites_push(calls@, site);
                    }
                    calls.push(site);
                }
            },
            None => {},
        }
        arg_refs(t, src, i, refs);
    }
    if str_eq(node.kind.as_str(), "macro_invocation") {
        macro_calls(t, src, i, calls);
        return;
    }
    let _ = t.len();
    proof {
        lemma_kids(t@, i as int);
    }
    let ks = t.children(i);
    let mut k: usize = 0;
    while k < ks.len()
        invariant
            i < t@.len(),
            ks@ == kids(t@, i as int),
            forall|m: int| 0 <= m < ks@.len() ==> i < #[trigger] ks@[m] < t@.len(),
            k <= ks@.len(),
            rs_calls(t@, src@, i as int, (call_sites_view(old(calls)@), ref_sites_view(old(refs)@)))
                == rs_calls_children(t@, src@, i as int, k as int, (call_sites_view(calls@), ref_sites_view(refs@))),
        decreases ks@.len() - k,
    {
        calls_in(t, src, ks[k], calls, refs);
        k = k + 1;
    }
}

// ---------------------------------------------------------------------
// Functions
// ---------------------------------------------------------------------

/// The call and reference sites of the function at `i`: those of its body.
pub open spec fn rs_body_sites(v: Seq<SyntaxNodeV>, src: Seq<u8>, i: int) -> (Seq<CallSiteV>, Seq<ReferenceSiteV>) {
    match field_child(v, i, "body"@) {
        Some(b) => if i < b < v.len() {
            rs_calls(v, src, b as int, (Seq::empty(), Seq::empty()))
        } else {
            (Seq::empty(), Seq::empty())
        },
        None => (Seq::empty(), Seq::empty()),
    }
}

/// The artifact of the function at `i`, named by node `name_node`.
pub open spec fn rs_function_artifact(v: Seq<SyntaxNodeV>, src: Seq<u8>, ctx: ParseContextV, i: int, name_node: int,
    is_test: bool) -> FunctionArtifactV {
    let name = node_text(src, v[name_node]);
    let sites = rs_body_sites(v, src, i);
    FunctionArtifactV {
        name: name,
        qualified_name: qualified_spec(ctx.module_name, Seq::empty(), name),
        language: ctx.language,
        is_test: is_test,
        line: line_of_row(v[i].start_row),
        end_line: line_of_row(v[i].end_row),
        call_sites: sites.0,
        reference_sites: sites.1,
    }
}

/// The functions from node `i` on, in pre-order, after `acc`. Modules under
/// `cfg(test)`, and test functions, are left out unless tests are kept; a
/// function is a test when its file is, when it lies in such a module, or
/// when an attribute marks it.
pub open spec fn rs_fns(v: Seq<SyntaxNodeV>, src: Seq<u8>, ctx: ParseContextV, i: int, in_test: bool,
    acc: Seq<FunctionArtifactV>) -> Seq<FunctionArtifactV>
    decreases v.len() - i, 1nat, 0int,
{
    if !(0 <= i < v.len()) {
        acc
    } else {
        let cfg_mod = v[i].kind == "mod_item"@ && has_cfg_test_attr(v, src, i);
        if !ctx.include_tests && cfg_mod {
            acc
        } else {
            let in_test2 = in_test || cfg_mod;
            if v[i].kind == "function_item"@ {
                let is_test = ctx.file_is_test || in_test2 || has_test_attr(v, src, i);
                if !ctx.include_tests && is_test {
                    acc
                } else {
                    let acc1 = match field_child(v, i, "name"@) {
                        Some(nn) => if nn < v.len() {
                            acc.push(rs_function_artifact(v, src, ctx, i, nn as int, is_test))
                        } else {
                            acc
                        },
                        None => acc,
                    };
                    rs_fns_children(v, src, ctx, i, 0, in_test2, acc1)
                }
            } else {
                rs_fns_children(v, src, ctx, i, 0, in_test2, acc)
            }
        }
    }
}

pub open spec fn rs_fns_children(v: Seq<SyntaxNodeV>, src: Seq<u8>, ctx: ParseContextV, i: int, k: int, in_test: bool,
    acc: Seq<FunctionArtifactV>) -> Seq<FunctionArtifactV>
    decreases v.len() - i, 0nat, kids(v, i).len() - k,
{
    if !(0 <= i < v.len()) || k < 0 || k >= kids(v, i).len() {
        acc
    } else {
        let c = kids(v, i)[k];
        let next = if i < c < v.len() { rs_fns(v, src, ctx, c as int, in_test, acc) } else { acc };
        rs_fns_children(v, src, ctx, i, k + 1, in_test, next)
    }
}

/// The functions found from node `i` on all carry the file's language.
pub proof fn lemma_rs_fns_language(v: Seq<SyntaxNodeV>, src: Seq<u8>, ctx: ParseContextV, i: int, in_test: bool,
    acc: Seq<FunctionArtifactV>)
    requires
        all_of_language(acc, ctx.language),
    ensures
        all_of_language(rs_fns(v, src, ctx, i, in_test, acc), ctx.language),
    decreases v.len() - i, 1nat, 0int,
{
    if 0 <= i < v.len() {
        let cfg_mod = v[i].kind == "mod_item"@ && has_cfg_test_attr(v, src, i);
        if ctx.include_tests || !cfg_mod {
            let in_test2 = in_test || cfg_mod;
            if v[i].kind == "function_item"@ {
                let is_test = ctx.file_is_test || in_test2 || has_test_attr(v, src, i);
                if ctx.include_tests || !is_test {
                    let acc1 = match field_child(v, i, "name"@) {
                        Some(nn) => if nn < v.len() {
                            acc.push(rs_function_artifact(v, src, ctx, i, nn as int, is_test))
                        } else {
                            acc
                        },
                        None => acc,
                    };
                    assert(all_of_language(acc1, ctx.language));
                    lemma_rs_fns_children_language(v, src, ctx, i, 0, in_test2, acc1);
                }
            } else {
                lemma_rs_fns_children_language(v, src, ctx, i, 0, in_test2, acc);
            }
        }
    }
}

/// The functions found among the children of `i` all carry the file's
/// language.
pub proof fn lemma_rs_fns_children_language(v: Seq<SyntaxNodeV>, src: Seq<u8>, ctx: ParseContextV, i: int, k: int,
    in_test: bool, acc: Seq<FunctionArtifactV>)
    requires
        all_of_language(acc, ctx.language),
    ensures
        all_of_language(rs_fns_children(v, src, ctx, i, k, in_test, acc), ctx.language),
    decreases v.len() - i, 0nat, kids(v, i).len() - k,
{
    if 0 <= i < v.len() && 0 <= k < kids(v, i).len() {
        let c = kids(v, i)[k];
        if i < c < v.len() {
            lemma_rs_fns_language(v, src, ctx, c as int, in_test, acc);
        }
        let next = if i < c < v.len() { rs_fns(v, src, ctx, c as int, in_test, acc) } else { acc };
        lemma_rs_fns_children_language(v, src, ctx, i, k + 1, in_test, next);
    }
}

/// The functions of a Rust file, from the root of its tree.
pub open spec fn rs_extract(v: Seq<SyntaxNodeV>, src: Seq<u8>, ctx: ParseContextV) -> FileArtifactV {
    FileArtifactV { source_hash: Seq::empty(), functions: rs_fns(v, src, ctx, 0, false, Seq::empty()) }
}

/// The artifact of the function at `i`, named by node `name_node`.
fn function_artifact(t: &SyntaxTree, src: &[u8], ctx: &ParseContext, i: usize, name_node: usize, is_test: bool)
    -> (res: FunctionArtifact)
    requires
        i < t@.len(),
        name_node < t@.len(),
    ensures
        res@ == rs_function_artifact(t@, src@, ctx@, i as int, name_node as int, is_test),
{
    let name = node_text_of(src, t.node(name_node));
    let no_scopes: Vec<String> = Vec::new();
    let qualified_name = ctx.qualified_name(&no_scopes, name.as_str());
    assert(strings_view(no_scopes@) =~= Seq::<Seq<char>>::empty());
    let mut calls: Vec<CallSite> = Vec::new();
    let mut refs: Vec<ReferenceSite> = Vec::new();
    assert(call_sites_view(calls@) =~= Seq::<CallSiteV>::empty());
    assert(ref_sites_view(refs@) =~= Seq::<ReferenceSiteV>::empty());
    match t.child_by_field(i, "body") {
        Some(b) => calls_in(t, src, b, &mut calls, &mut refs),
        None => {},
    }
    let node = t.node(i);
    let res = FunctionArtifact {
        name,
        qualified_name,
        language: ctx.language,
        is_test,
        line: row_line(node.start_row),
        end_line: row_line(node.end_row),
        call_sites: calls,
        reference_sites: refs,
    };
    assert(res@ =~= rs_function_artifact(t@, src@, ctx@, i as int, name_node as int, is_test));
    res
}

/// Adds the functions from node `i` on.
fn collect_functions(t: &SyntaxTree, src: &[u8], ctx: &ParseContext, i: usize, in_test: bool,
    out: &mut Vec<FunctionArtifact>)
    requires
        i < t@.len(),
    ensures
        functions_view(final(out)@) == rs_fns(t@, src@, ctx@, i as int, in_test, functions_view(old(out)@)),
    decreases t@.len() - i, 1nat, 0int,
{
    let node = t.node(i);
    let cfg_mod = str_eq(node.kind.as_str(), "mod_item") && attrs_match(t, src, i, true);
    if !ctx.include_tests && cfg_mod {
        return;
    }
    let in_test2 = in_test || cfg_mod;
    if str_eq(node.kind.as_str(), "function_item") {
        let is_test = ctx.file_is_test || in_test2 || attrs_match(t, src, i, false);
        if !ctx.include_tests && is_test {
            return;
        }
        match t.child_by_field(i, "name") {
            Some(nn) => {
                let f = function_artifact(t, src, ctx, i, nn, is_test);
                proof {
                    lemma_functions_push(out@, f);
                }
                out.push(f);
            },
            None => {},
        }
    }
    let _ = t.len();
    proof {
        lemma_kids(t@, i as int);
    }
    let ks = t.children(i);
    let mut k: usize = 0;
    while k < ks.len()
        invariant
            i < t@.len(),
            ks@ == kids(t@, i as int),
            forall|m: int| 0 <= m < ks@.len() ==> i < #[trigger] ks@[m] < t@.len(),
            k <= ks@.len(),
            rs_fns(t@, src@, ctx@, i as int, in_test, functions_view(old(out)@))
                == rs_fns_children(t@, src@, ctx@, i as int, k as int, in_test2, functions_view(out@)),
        decreases ks@.len() - k,
    {
        collect_functions(t, src, ctx, ks[k], in_test2, out);
        k = k + 1;
    }
}

/// The functions of a Rust file, with their calls and references.
pub fn extract(t: &SyntaxTree, src: &[u8], ctx: &ParseContext) -> (res: FileArtifact)
    ensures
        res@ == rs_extract(t@, src@, ctx@),
{
    let mut functions: Vec<FunctionArtifact> = Vec::new();
    assert(functions_view(functions@) =~= Seq::<FunctionArtifactV>::empty());
    if t.len() > 0 {
        collect_functions(t, src, ctx, 0, false, &mut functions);
    }
    let res = FileArtifact { source_hash: empty_string(), functions };
    assert(res@ =~= rs_extract(t@, src@, ctx@));
    res
}

} // verus!
