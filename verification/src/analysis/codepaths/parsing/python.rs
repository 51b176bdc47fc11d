use vstd::prelude::*;
use crate::text::{concat, str_eq, empty_string};
use crate::analysis::codepaths::types::{ReferenceSite, ReferenceSiteV, CallSite, CallSiteV, FunctionArtifact,
    FunctionArtifactV, FileArtifact, FileArtifactV, strings_view, lemma_strings_view_push, clone_strings, all_of_language};
use super::{ParseContext, ParseContextV, qualified_spec, line_of_row, row_line, functions_view, lemma_functions_push,
    ref_sites_view, add_ref, passed_to, passed_to_context, add_reference, call_sites_view, lemma_call_sites_push,
    function_is_test_spec};
use super::rust::{in_else_branch, is_in_else_branch};
use super::syntax::{SyntaxNodeV, SyntaxTree, field_child, named_kids, node_text, node_text_if_non_empty,
    lemma_named_kids, node_text_of, node_text_if_non_empty_of, opt_text_view};

verus! {

/// Nodes whose code belongs to another function: definitions and lambdas.
pub open spec fn py_boundary(kind: Seq<char>) -> bool {
    kind == "function_definition"@ || kind == "class_definition"@ || kind == "decorated_definition"@
        || kind == "lambda"@
}

fn is_boundary(kind: &str) -> (res: bool)
    ensures
        res == py_boundary(kind@),
{
    str_eq(kind, "function_definition") || str_eq(kind, "class_definition") || str_eq(kind, "decorated_definition")
        || str_eq(kind, "lambda")
}

/// The function an argument names, when it is a name, an attribute or a
/// dotted name.
pub open spec fn py_ref_name(v: Seq<SyntaxNodeV>, src: Seq<u8>, i: int) -> Option<Seq<char>> {
    if v[i].kind == "identifier"@ || v[i].kind == "attribute"@ || v[i].kind == "dotted_name"@ {
        node_text_if_non_empty(src, v[i])
    } else {
        None
    }
}

// ---------------------------------------------------------------------
// Branch conditions
// ---------------------------------------------------------------------

/// The condition that node `j` puts on the call at `call`: that of an `if`
/// (negated in its `else` branch) or of an `elif`.
pub open spec fn py_condition_at(v: Seq<SyntaxNodeV>, src: Seq<u8>, j: int, call: int) -> Seq<Seq<char>> {
    if v[j].kind == "if_statement"@ || v[j].kind == "elif_clause"@ {
        match field_child(v, j, "condition"@) {
            Some(c) => {
                let t = node_text(src, v[c as int]);
                if t.len() == 0 {
                    Seq::empty()
                } else if v[j].kind == "if_statement"@ && in_else_branch(v, j, call) {
                    seq!["!("@ + t + ")"@]
                } else {
                    seq![t]
                }
            },
            None => Seq::empty(),
        }
    } else {
        Seq::empty()
    }
}

/// Law: an `if` puts opposite conditions on its two branches. A call that
/// starts inside the `if`'s `else` branch runs under `!(c)`, where `c` is
/// the text of the `if`'s condition, never under `c` itself; any other call
/// under the `if` runs under `c`.
pub proof fn law_py_else_branch_negated(v: Seq<SyntaxNodeV>, src: Seq<u8>, j: int, call: int)
    requires
        0 <= j < v.len(),
        0 <= call < v.len(),
        v[j].kind == "if_statement"@,
        field_child(v, j, "condition"@) matches Some(c) && node_text(src, v[c as int]).len() > 0,
    ensures
        ({
            let c = field_child(v, j, "condition"@)->0 as int;
            let t = node_text(src, v[c]);
            let in_else = field_child(v, j, "alternative"@) matches Some(a) && a < v.len()
                && v[a as int].start_byte <= v[call].start_byte < v[a as int].end_byte;
            &&& in_else ==> py_condition_at(v, src, j, call) == seq!["!("@ + t + ")"@]
            &&& !in_else ==> py_condition_at(v, src, j, call) == seq![t]
        }),
{
}

/// The conditions from node `j` up to the enclosing function, outermost first.
pub open spec fn py_conditions_from(v: Seq<SyntaxNodeV>, src: Seq<u8>, j: int, call: int) -> Seq<Seq<char>>
    decreases j + 1,
{
    if j < 0 || j >= v.len() || v[j].kind == "function_definition"@ {
        Seq::empty()
    } else {
        let up = match v[j].parent {
            Some(p) => if p < j { p as int } else { -1 },
            None => -1,
        };
        py_conditions_from(v, src, up, call) + py_condition_at(v, src, j, call)
    }
}

/// The branch conditions under which the call at `call` runs, outermost first.
pub open spec fn py_conditions(v: Seq<SyntaxNodeV>, src: Seq<u8>, call: int) -> Seq<Seq<char>> {
    match v[call].parent {
        Some(p) => if p < call { py_conditions_from(v, src, p as int, call) } else { Seq::empty() },
        None => Seq::empty(),
    }
}

fn condition_at(t: &SyntaxTree, src: &[u8], j: usize, call: usize) -> (res: Vec<String>)
    requires
        j < t@.len(),
        call < t@.len(),
    ensures
        strings_view(res@) == py_condition_at(t@, src@, j as int, call as int),
{
    let node = t.node(j);
    let mut res: Vec<String> = Vec::new();
    let is_if = str_eq(node.kind.as_str(), "if_statement");
    if is_if || str_eq(node.kind.as_str(), "elif_clause") {
        if let Some(c) = t.child_by_field(j, "condition") {
            let text = node_text_of(src, t.node(c));
            if text.as_str().unicode_len() > 0 {
                if is_if && is_in_else_branch(t, j, call) {
                    let head = concat("!(", text.as_str());
                    res.push(concat(head.as_str(), ")"));
                } else {
                    res.push(text);
                }
            }
        }
    }
    assert(strings_view(res@) =~= py_condition_at(t@, src@, j as int, call as int));
    res
}

fn conditions_from(t: &SyntaxTree, src: &[u8], j: Option<usize>, call: usize) -> (res: Vec<String>)
    requires
        call < t@.len(),
        j matches Some(x) ==> x < t@.len(),
    ensures
        strings_view(res@) == py_conditions_from(t@, src@, match j { Some(x) => x as int, None => -1 }, call as int),
    decreases match j { Some(x) => x as int + 1, None => 0 },
{
    match j {
        None => {
            let res: Vec<String> = Vec::new();
            assert(strings_view(res@) =~= Seq::<Seq<char>>::empty());
            res
        },
        Some(x) => {
            if str_eq(t.node(x).kind.as_str(), "function_definition") {
                let res: Vec<String> = Vec::new();
                assert(strings_view(res@) =~= Seq::<Seq<char>>::empty());
                return res;
            }
            let up = t.parent(x);
            let mut res = conditions_from(t, src, up, call);
            let ghost mid = strings_view(res@);
            let here = condition_at(t, src, x, call);
            let ghost hv = strings_view(here@);
            let mut m: usize = 0;
            while m < here.len()
                invariant
                    m <= here@.len(),
                    hv == strings_view(here@),
                    strings_view(res@) == mid + hv.take(m as int),
                decreases here@.len() - m,
            {
                let item = concat(here[m].as_str(), "");
                proof {
                    reveal_strlit("");
                    lemma_strings_view_push(res@, item);
                }
                assert(item@ == hv[m as int]);
                res.push(item);
                m = m + 1;
                assert(strings_view(res@) =~= mid + hv.take(m as int));
            }
            assert(hv.take(here@.len() as int) =~= hv);
            res
        },
    }
}

fn conditions_of(t: &SyntaxTree, src: &[u8], call: usize) -> (res: Vec<String>)
    requires
        call < t@.len(),
    ensures
        strings_view(res@) == py_conditions(t@, src@, call as int),
{
    let p = t.parent(call);
    conditions_from(t, src, p, call)
}

// ---------------------------------------------------------------------
// Functions passed as arguments
// ---------------------------------------------------------------------

/// The references in the arguments of the call at `call`, added to `refs`.
pub open spec fn py_arg_refs(v: Seq<SyntaxNodeV>, src: Seq<u8>, call: int, refs: Seq<ReferenceSiteV>)
    -> Seq<ReferenceSiteV>
    decreases v.len() - call, 3nat, 0int,
{
    if !(0 <= call < v.len()) {
        refs
    } else {
        match (field_child(v, call, "function"@), field_child(v, call, "arguments"@)) {
            (Some(f), Some(a)) => if call < a < v.len() && f < v.len() {
                py_ref_args(v, src, a as int, 0, node_text(src, v[f as int]), refs)
            } else {
                refs
            },
            _ => refs,
        }
    }
}

pub open spec fn py_ref_args(v: Seq<SyntaxNodeV>, src: Seq<u8>, a: int, k: int, callee: Seq<char>,
    refs: Seq<ReferenceSiteV>) -> Seq<ReferenceSiteV>
    decreases v.len() - a, 1nat, named_kids(v, a).len() - k,
{
    if !(0 <= a < v.len()) || k < 0 || k >= named_kids(v, a).len() {
        refs
    } else {
        let c = named_kids(v, a)[k];
        let next = if a < c < v.len() { py_ref_exprs(v, src, c as int, callee, refs) } else { refs };
        py_ref_args(v, src, a, k + 1, callee, next)
    }
}

/// The references within node `i`, an argument passed to `callee`.
pub open spec fn py_ref_exprs(v: Seq<SyntaxNodeV>, src: Seq<u8>, i: int, callee: Seq<char>,
    refs: Seq<ReferenceSiteV>) -> Seq<ReferenceSiteV>
    decreases v.len() - i, 4nat, 0int,
{
    if !(0 <= i < v.len()) || py_boundary(v[i].kind) {
        refs
    } else if v[i].kind == "call"@ {
        py_arg_refs(v, src, i, refs)
    } else {
        match py_ref_name(v, src, i) {
            Some(t) => add_ref(refs, t, passed_to(callee)),
            None => py_ref_named(v, src, i, 0, callee, refs),
        }
    }
}

pub open spec fn py_ref_named(v: Seq<SyntaxNodeV>, src: Seq<u8>, i: int, k: int, callee: Seq<char>,
    refs: Seq<ReferenceSiteV>) -> Seq<ReferenceSiteV>
    decreases v.len() - i, 2nat, named_kids(v, i).len() - k,
{
    if !(0 <= i < v.len()) || k < 0 || k >= named_kids(v, i).len() {
        refs
    } else {
        let c = named_kids(v, i)[k];
        let next = if i < c < v.len() { py_ref_exprs(v, src, c as int, callee, refs) } else { refs };
        py_ref_named(v, src, i, k + 1, callee, next)
    }
}

fn arg_refs(t: &SyntaxTree, src: &[u8], call: usize, refs: &mut Vec<ReferenceSite>)
    requires
        call < t@.len(),
    ensures
        ref_sites_view(final(refs)@) == py_arg_refs(t@, src@, call as int, ref_sites_view(old(refs)@)),
    decreases t@.len() - call, 3nat, 0int,
{
    match (t.child_by_field(call, "function"), t.child_by_field(call, "arguments")) {
        (Some(f), Some(a)) => {
            let callee = node_text_of(src, t.node(f));
            let _ = t.len();
            let named = t.named_children(a);
            proof {
                lemma_named_kids(t@, a as int);
            }
            let mut k: usize = 0;
            while k < named.len()
                invariant
                    a < t@.len(),
                    call < a,
                    named@ == named_kids(t@, a as int),
                    forall|m: int| 0 <= m < named@.len() ==> a < #[trigger] named@[m] < t@.len(),
                    k <= named@.len(),
                    py_arg_refs(t@, src@, call as int, ref_sites_view(old(refs)@))
                        == py_ref_args(t@, src@, a as int, k as int, callee@, ref_sites_view(refs@)),
                decreases named@.len() - k,
            {
                ref_exprs(t, src, named[k], callee.as_str(), refs);
                k = k + 1;
            }
        },
        _ => {},
    }
}

fn ref_exprs(t: &SyntaxTree, src: &[u8], i: usize, callee: &str, refs: &mut Vec<ReferenceSite>)
    requires
        i < t@.len(),
    ensures
        ref_sites_view(final(refs)@) == py_ref_exprs(t@, src@, i as int, callee@, ref_sites_view(old(refs)@)),
    decreases t@.len() - i, 4nat, 0int,
{
    let node = t.node(i);
    let kind = node.kind.as_str();
    if is_boundary(kind) {
        return;
    }
    if str_eq(kind, "call") {
        arg_refs(t, src, i, refs);
        return;
    }
    let named_ref = if str_eq(kind, "identifier") || str_eq(kind, "attribute") || str_eq(kind, "dotted_name") {
        node_text_if_non_empty_of(src, node)
    } else {
        None
    };
    match named_ref {
        Some(target) => {
            let context = passed_to_context(callee);
            add_reference(refs, target, context);
        },
        None => {
            let _ = t.len();
            proof {
                lemma_named_kids(t@, i as int);
            }
            let ks = t.named_children(i);
            let mut k: usize = 0;
            while k < ks.len()
                invariant
                    i < t@.len(),
                    ks@ == named_kids(t@, i as int),
                    forall|m: int| 0 <= m < ks@.len() ==> i < #[trigger] ks@[m] < t@.len(),
                    k <= ks@.len(),
                    py_ref_named(t@, src@, i as int, 0, callee@, ref_sites_view(old(refs)@))
                        == py_ref_named(t@, src@, i as int, k as int, callee@, ref_sites_view(refs@)),
                decreases ks@.len() - k,
            {
                ref_exprs(t, src, ks[k], callee, refs);
                k = k + 1;
            }
        },
    }
}

// ---------------------------------------------------------------------
// Calls
// ---------------------------------------------------------------------

/// The call sites and references of the code at node `i` on; definitions
/// and lambdas within it are skipped.
pub open spec fn py_calls(v: Seq<SyntaxNodeV>, src: Seq<u8>, i: int, acc: (Seq<CallSiteV>, Seq<ReferenceSiteV>))
    -> (Seq<CallSiteV>, Seq<ReferenceSiteV>)
    decreases v.len() - i, 1nat, 0int,
{
    if !(0 <= i < v.len()) || py_boundary(v[i].kind) {
        acc
    } else {
        let acc1 = if v[i].kind == "call"@ {
            let calls = match field_child(v, i, "function"@) {
                Some(f) => if f < v.len() && node_text(src, v[f as int]).len() > 0 {
                    acc.0.push(CallSiteV { callee_name: node_text(src, v[f as int]), conditions: py_conditions(v, src, i) })
                } else {
                    acc.0
                },
                None => acc.0,
            };
            (calls, py_arg_refs(v, src, i, acc.1))
        } else {
            acc
        };
        py_calls_named(v, src, i, 0, acc1)
    }
}

pub open spec fn py_calls_named(v: Seq<SyntaxNodeV>, src: Seq<u8>, i: int, k: int,
    acc: (Seq<CallSiteV>, Seq<ReferenceSiteV>)) -> (Seq<CallSiteV>, Seq<ReferenceSiteV>)
    decreases v.len() - i, 0nat, named_kids(v, i).len() - k,
{
    if !(0 <= i < v.len()) || k < 0 || k >= named_kids(v, i).len() {
        acc
    } else {
        let c = named_kids(v, i)[k];
        let next = if i < c < v.len() { py_calls(v, src, c as int, acc) } else { acc };
        py_calls_named(v, src, i, k + 1, next)
    }
}

fn calls_in(t: &SyntaxTree, src: &[u8], i: usize, calls: &mut Vec<CallSite>, refs: &mut Vec<ReferenceSite>)
    requires
        i < t@.len(),
    ensures
        (call_sites_view(final(calls)@), ref_sites_view(final(refs)@))
            == py_calls(t@, src@, i as int, (call_sites_view(old(calls)@), ref_sites_view(old(refs)@))),
    decreases t@.len() - i, 1nat, 0int,
{
    let node = t.node(i);
    if is_boundary(node.kind.as_str()) {
        return;
    }
    if str_eq(node.kind.as_str(), "call") {
        match t.child_by_field(i, "function") {
            Some(f) => {
                let name = node_text_of(src, t.node(f));
                if name.as_str().unicode_len() > 0 {
                    let conditions = conditions_of(t, src, i);
                    let site = CallSite { callee_name: name, conditions };
                    proof {
                        lemma_call_sites_push(calls@, site);
                    }
                    calls.push(site);
                }
            },
            None => {},
        }
        arg_refs(t, src, i, refs);
    }
    let _ = t.len();
    proof {
        lemma_named_kids(t@, i as int);
    }
    let ks = t.named_children(i);
    let mut k: usize = 0;
    while k < ks.len()
        invariant
            i < t@.len(),
            ks@ == named_kids(t@, i as int),
            forall|m: int| 0 <= m < ks@.len() ==> i < #[trigger] ks@[m] < t@.len(),
            k <= ks@.len(),
            py_calls(t@, src@, i as int, (call_sites_view(old(calls)@), ref_sites_view(old(refs)@)))
                == py_calls_named(t@, src@, i as int, k as int, (call_sites_view(calls@), ref_sites_view(refs@))),
        decreases ks@.len() - k,
    {
        calls_in(t, src, ks[k], calls, refs);
        k = k + 1;
    }
}

// ---------------------------------------------------------------------
// Functions
// ---------------------------------------------------------------------

/// The functions from node `i` on, after `acc`: a class adds its name to
/// the scopes of its body; a function comes after the functions nested in
/// it, which have its name among their scopes. Test functions are left out
/// unless tests are kept.
pub open spec fn py_fns(v: Seq<SyntaxNodeV>, src: Seq<u8>, ctx: ParseContextV, i: int, scopes: Seq<Seq<char>>,
    acc: Seq<FunctionArtifactV>) -> Seq<FunctionArtifactV>
    decreases v.len() - i, 2nat, 0int,
{
    if !(0 <= i < v.len()) {
        acc
    } else if v[i].kind == "class_definition"@ {
        match field_child(v, i, "name"@) {
            Some(nn) => if nn < v.len() {
                match field_child(v, i, "body"@) {
                    Some(b) => if i < b < v.len() {
                        py_fns_named(v, src, ctx, b as int, 0, scopes.push(node_text(src, v[nn as int])), acc)
                    } else {
                        acc
                    },
                    None => acc,
                }
            } else {
                acc
            },
            None => acc,
        }
    } else if v[i].kind == "decorated_definition"@ {
        py_fns_named(v, src, ctx, i, 0, scopes, acc)
    } else if v[i].kind == "function_definition"@ {
        match field_child(v, i, "name"@) {
            Some(nn) => if nn < v.len() {
                let name = node_text(src, v[nn as int]);
                let is_test = function_is_test_spec(ctx, name);
                if !ctx.include_tests && is_test {
                    acc
                } else {
                    let (sites, acc1) = match field_child(v, i, "body"@) {
                        Some(b) => if i < b < v.len() {
                            (py_calls(v, src, b as int, (Seq::empty(), Seq::empty())),
                                py_fns_named(v, src, ctx, b as int, 0, scopes.push(name), acc))
                        } else {
                            ((Seq::empty(), Seq::empty()), acc)
                        },
                        None => ((Seq::empty(), Seq::empty()), acc),
                    };
                    acc1.push(FunctionArtifactV {
                        name: name,
                        qualified_name: qualified_spec(ctx.module_name, scopes, name),
                        language: ctx.language,
                        is_test: is_test,
                        line: line_of_row(v[i].start_row),
                        end_line: line_of_row(v[i].end_row),
                        call_sites: sites.0,
                        reference_sites: sites.1,
                    })
                }
            } else {
                acc
            },
            None => acc,
        }
    } else {
        py_fns_named(v, src, ctx, i, 0, scopes, acc)
    }
}

pub open spec fn py_fns_named(v: Seq<SyntaxNodeV>, src: Seq<u8>, ctx: ParseContextV, i: int, k: int,
    scopes: Seq<Seq<char>>, acc: Seq<FunctionArtifactV>) -> Seq<FunctionArtifactV>
    decreases v.len() - i, 1nat, named_kids(v, i).len() - k,
{
    if !(0 <= i < v.len()) || k < 0 || k >= named_kids(v, i).len() {
        acc
    } else {
        let c = named_kids(v, i)[k];
        let next = if i < c < v.len() { py_fns(v, src, ctx, c as int, scopes, acc) } else { acc };
        py_fns_named(v, src, ctx, i, k + 1, scopes, next)
    }
}

/// The functions found from node `i` on all carry the file's language.
pub proof fn lemma_py_fns_language(v: Seq<SyntaxNodeV>, src: Seq<u8>, ctx: ParseContextV, i: int,
    scopes: Seq<Seq<char>>, acc: Seq<FunctionArtifactV>)
    requires
        all_of_language(acc, ctx.language),
    ensures
        all_of_language(py_fns(v, src, ctx, i, scopes, acc), ctx.language),
    decreases v.len() - i, 2nat, 0int,
{
    if 0 <= i < v.len() {
        if v[i].kind == "class_definition"@ {
            if let Some(nn) = field_child(v, i, "name"@) {
                if nn < v.len() {
                    if let Some(b) = field_child(v, i, "body"@) {
                        if i < b < v.len() {
                            lemma_py_fns_named_language(v, src, ctx, b as int, 0, scopes.push(node_text(src, v[nn as int])), acc);
                        }
                    }
                }
            }
        } else if v[i].kind == "decorated_definition"@ {
            lemma_py_fns_named_language(v, src, ctx, i, 0, scopes, acc);
        } else if v[i].kind == "function_definition"@ {
            if let Some(nn) = field_child(v, i, "name"@) {
                if nn < v.len() {
                    let name = node_text(src, v[nn as int]);
                    if let Some(b) = field_child(v, i, "body"@) {
                        if i < b < v.len() {
                            lemma_py_fns_named_language(v, src, ctx, b as int, 0, scopes.push(name), acc);
                        }
                    }
                }
            }
        } else {
            lemma_py_fns_named_language(v, src, ctx, i, 0, scopes, acc);
        }
    }
}

/// The functions found among the named children of `i` all carry the
/// file's language.
pub proof fn lemma_py_fns_named_language(v: Seq<SyntaxNodeV>, src: Seq<u8>, ctx: ParseContextV, i: int, k: int,
    scopes: Seq<Seq<char>>, acc: Seq<FunctionArtifactV>)
    requires
        all_of_language(acc, ctx.language),
    ensures
        all_of_language(py_fns_named(v, src, ctx, i, k, scopes, acc), ctx.language),
    decreases v.len() - i, 1nat, named_kids(v, i).len() - k,
{
    if 0 <= i < v.len() && 0 <= k < named_kids(v, i).len() {
        let c = named_kids(v, i)[k];
        if i < c < v.len() {
            lemma_py_fns_language(v, src, ctx, c as int, scopes, acc);
        }
        let next = if i < c < v.len() { py_fns(v, src, ctx, c as int, scopes, acc) } else { acc };
        lemma_py_fns_named_language(v, src, ctx, i, k + 1, scopes, next);
    }
}

/// The functions of a Python file.
pub open spec fn py_extract(v: Seq<SyntaxNodeV>, src: Seq<u8>, ctx: ParseContextV) -> FileArtifactV {
    FileArtifactV { source_hash: Seq::empty(), functions: py_fns(v, src, ctx, 0, Seq::empty(), Seq::empty()) }
}

/// Adds the functions among the named children of `i`.
fn collect_named(t: &SyntaxTree, src: &[u8], ctx: &ParseContext, i: usize, scopes: &Vec<String>,
    out: &mut Vec<FunctionArtifact>)
    requires
        i < t@.len(),
    ensures
        functions_view(final(out)@) == py_fns_named(t@, src@, ctx@, i as int, 0, strings_view(scopes@),
            functions_view(old(out)@)),
    decreases t@.len() - i, 1nat, t@.len() + 1,
{
    let _ = t.len();
    proof {
        lemma_named_kids(t@, i as int);
    }
    let ks = t.named_children(i);
    let mut k: usize = 0;
    while k < ks.len()
        invariant
            i < t@.len(),
            ks@ == named_kids(t@, i as int),
            forall|m: int| 0 <= m < ks@.len() ==> i < #[trigger] ks@[m] < t@.len(),
            k <= ks@.len(),
            py_fns_named(t@, src@, ctx@, i as int, 0, strings_view(scopes@), functions_view(old(out)@))
                == py_fns_named(t@, src@, ctx@, i as int, k as int, strings_view(scopes@), functions_view(out@)),
        decreases ks@.len() - k,
    {
        collect_functions(t, src, ctx, ks[k], scopes, out);
        k = k + 1;
    }
}

/// `scopes` with `name` added.
fn with_scope(scopes: &Vec<String>, name: &str) -> (res: Vec<String>)
    ensures
        strings_view(res@) == strings_view(scopes@).push(name@),
{
    let mut res = clone_strings(scopes);
    let x = concat(name, "");
    proof {
        reveal_strlit("");
        lemma_strings_view_push(res@, x);
    }
    res.push(x);
    res
}

/// Adds the functions from node `i` on.
fn collect_functions(t: &SyntaxTree, src: &[u8], ctx: &ParseContext, i: usize, scopes: &Vec<String>,
    out: &mut Vec<FunctionArtifact>)
    requires
        i < t@.len(),
    ensures
        functions_view(final(out)@) == py_fns(t@, src@, ctx@, i as int, strings_view(scopes@), functions_view(old(out)@)),
    decreases t@.len() - i, 2nat, 0int,
{
    let node = t.node(i);
    let kind = node.kind.as_str();
    if str_eq(kind, "class_definition") {
        if let Some(nn) = t.child_by_field(i, "name") {
            let class_name = node_text_of(src, t.node(nn));
            if let Some(b) = t.child_by_field(i, "body") {
                let inner = with_scope(scopes, class_name.as_str());
                collect_named(t, src, ctx, b, &inner, out);
            }
        }
        return;
    }
    if str_eq(kind, "decorated_definition") {
        collect_named(t, src, ctx, i, scopes, out);
        return;
    }
    if str_eq(kind, "function_definition") {
        if let Some(nn) = t.child_by_field(i, "name") {
            let name = node_text_of(src, t.node(nn));
            let is_test = ctx.function_is_test(name.as_str());
            if !ctx.include_tests && is_test {
                return;
            }
            let mut calls: Vec<CallSite> = Vec::new();
            let mut refs: Vec<ReferenceSite> = Vec::new();
            assert(call_sites_view(calls@) =~= Seq::<CallSiteV>::empty());
            assert(ref_sites_view(refs@) =~= Seq::<ReferenceSiteV>::empty());
            if let Some(b) = t.child_by_field(i, "body") {
                calls_in(t, src, b, &mut calls, &mut refs);
                let inner = with_scope(scopes, name.as_str());
                collect_named(t, src, ctx, b, &inner, out);
            }
            let qualified_name = ctx.qualified_name(scopes, name.as_str());
            let f = FunctionArtifact {
                name,
                qualified_name,
                language: ctx.language,
                is_test,
                line: row_line(node.start_row),
                end_line: row_line(node.end_row),
                call_sites: calls,
                reference_sites: refs,
            };
            proof {
                lemma_functions_push(out@, f);
            }
            out.push(f);
        }
        return;
    }
    collect_named(t, src, ctx, i, scopes, out);
}

/// The functions of a Python file, with their calls and references.
pub fn extract(t: &SyntaxTree, src: &[u8], ctx: &ParseContext) -> (res: FileArtifact)
    ensures
        res@ == py_extract(t@, src@, ctx@),
{
    let mut functions: Vec<FunctionArtifact> = Vec::new();
    assert(functions_view(functions@) =~= Seq::<FunctionArtifactV>::empty());
    let scopes: Vec<String> = Vec::new();
    assert(strings_view(scopes@) =~= Seq::<Seq<char>>::empty());
    if t.len() > 0 {
        collect_functions(t, src, ctx, 0, &scopes, &mut functions);
    }
    let res = FileArtifact { source_hash: empty_string(), functions };
    assert(res@ =~= py_extract(t@, src@, ctx@));
    res
}

} // verus!
