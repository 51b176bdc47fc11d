use vstd::prelude::*;
use crate::text::{concat, str_eq, empty_string, chars_of, string_from_range};
use crate::analysis::codepaths::types::{ReferenceSite, ReferenceSiteV, CallSite, CallSiteV, FunctionArtifact,
    FunctionArtifactV, FileArtifact, FileArtifactV, strings_view, lemma_strings_view_push, clone_strings, all_of_language};
use super::{ParseContext, ParseContextV, qualified_spec, line_of_row, row_line, functions_view, lemma_functions_push,
    ref_sites_view, add_ref, passed_to, passed_to_context, add_reference, call_sites_view, lemma_call_sites_push,
    function_is_test_spec};
use super::rust::{in_else_branch, is_in_else_branch};
use super::syntax::{SyntaxNodeV, SyntaxTree, field_child, named_kids, node_text, node_text_if_non_empty,
    lemma_named_kids, node_text_of, node_text_if_non_empty_of, opt_text_view};

verus! {

// ---------------------------------------------------------------------
// Kinds of nodes
// ---------------------------------------------------------------------

/// A function written as a value.
pub open spec fn js_function_value(kind: Seq<char>) -> bool {
    kind == "function_expression"@ || kind == "arrow_function"@
}

/// Nodes that end the walk up from a call to its conditions.
pub open spec fn js_function_boundary(kind: Seq<char>) -> bool {
    kind == "function_declaration"@ || kind == "function_expression"@ || kind == "arrow_function"@
        || kind == "method_definition"@
}

/// Nodes whose code belongs to another function: declarations, and
/// function values bound to a name or a property.
pub open spec fn js_skip(v: Seq<SyntaxNodeV>, i: int) -> bool {
    let k = v[i].kind;
    if k == "class_declaration"@ || k == "function_declaration"@ || k == "method_definition"@ {
        true
    } else if js_function_value(k) {
        match v[i].parent {
            Some(p) => p < v.len() && (v[p as int].kind == "variable_declarator"@ || v[p as int].kind == "pair"@),
            None => false,
        }
    } else {
        false
    }
}

fn skips(t: &SyntaxTree, i: usize) -> (res: bool)
    requires
        i < t@.len(),
    ensures
        res == js_skip(t@, i as int),
{
    let k = t.node(i).kind.as_str();
    if str_eq(k, "class_declaration") || str_eq(k, "function_declaration") || str_eq(k, "method_definition") {
        return true;
    }
    if str_eq(k, "function_expression") || str_eq(k, "arrow_function") {
        match t.parent(i) {
            Some(p) => {
                let pk = t.node(p).kind.as_str();
                str_eq(pk, "variable_declarator") || str_eq(pk, "pair")
            },
            None => false,
        }
    } else {
        false
    }
}

/// Names whose text is the name they give.
pub open spec fn js_name_kind(kind: Seq<char>) -> bool {
    kind == "identifier"@ || kind == "property_identifier"@ || kind == "private_property_identifier"@
}

/// The function an argument names: a name or a member access.
pub open spec fn js_ref_name(v: Seq<SyntaxNodeV>, src: Seq<u8>, i: int) -> Option<Seq<char>> {
    if js_name_kind(v[i].kind) || v[i].kind == "member_expression"@ {
        node_text_if_non_empty(src, v[i])
    } else {
        None
    }
}

/// `s` without leading quotes.
pub open spec fn trim_start_quotes(s: Seq<char>) -> Seq<char>
    decreases s.len(),
{
    if s.len() > 0 && (s[0] == '"' || s[0] == '\'') { trim_start_quotes(s.drop_first()) } else { s }
}

/// `s` without trailing quotes.
pub open spec fn trim_end_quotes(s: Seq<char>) -> Seq<char>
    decreases s.len(),
{
    if s.len() > 0 && (s.last() == '"' || s.last() == '\'') { trim_end_quotes(s.drop_last()) } else { s }
}

/// The name a property key gives: a name, a string without its quotes, or
/// a number; none when empty or of another kind.
pub open spec fn js_property_name(v: Seq<SyntaxNodeV>, src: Seq<u8>, i: int) -> Option<Seq<char>> {
    let k = v[i].kind;
    let value = if js_name_kind(k) || k == "number"@ {
        node_text(src, v[i])
    } else if k == "string"@ {
        trim_end_quotes(trim_start_quotes(node_text(src, v[i])))
    } else {
        Seq::empty()
    };
    if value.len() > 0 { Some(value) } else { None }
}

fn strip_quotes(s: &str) -> (res: String)
    ensures
        res@ == trim_end_quotes(trim_start_quotes(s@)),
{
    let chars = chars_of(s);
    let n = chars.len();
    let mut a: usize = 0;
    assert(s@.subrange(0, n as int) =~= s@);
    while a < n && (chars[a] == '"' || chars[a] == '\'')
        invariant
            a <= n == s@.len(),
            chars@ == s@,
            trim_start_quotes(s@) == trim_start_quotes(s@.subrange(a as int, n as int)),
        decreases n - a,
    {
        assert(s@.subrange(a as int, n as int).drop_first() =~= s@.subrange(a + 1, n as int));
        a = a + 1;
    }
    let mut b: usize = n;
    while b > a && (chars[b - 1] == '"' || chars[b - 1] == '\'')
        invariant
            a <= b <= n == s@.len(),
            chars@ == s@,
            trim_end_quotes(s@.subrange(a as int, n as int)) == trim_end_quotes(s@.subrange(a as int, b as int)),
        decreases b - a,
    {
        assert(s@.subrange(a as int, b as int).drop_last() =~= s@.subrange(a as int, b - 1));
        b = b - 1;
    }
    string_from_range(chars.as_slice(), a, b)
}

fn property_name(t: &SyntaxTree, src: &[u8], i: usize) -> (res: Option<String>)
    requires
        i < t@.len(),
    ensures
        opt_text_view(res) == js_property_name(t@, src@, i as int),
{
    let node = t.node(i);
    let k = node.kind.as_str();
    let value = if str_eq(k, "identifier") || str_eq(k, "property_identifier") || str_eq(k, "private_property_identifier")
        || str_eq(k, "number") {
        node_text_of(src, node)
    } else if str_eq(k, "string") {
        let text = node_text_of(src, node);
        strip_quotes(text.as_str())
    } else {
        empty_string()
    };
    if value.as_str().unicode_len() > 0 {
        Some(value)
    } else {
        None
    }
}

// ---------------------------------------------------------------------
// Branch conditions
// ---------------------------------------------------------------------

/// The condition that node `j` puts on the call at `call`: that of an `if`
/// (negated in its `else` branch), a `case` value, or `default`.
pub open spec fn js_condition_at(v: Seq<SyntaxNodeV>, src: Seq<u8>, j: int, call: int) -> Seq<Seq<char>> {
    if v[j].kind == "if_statement"@ {
        match field_child(v, j, "condition"@) {
            Some(c) => {
                let t = node_text(src, v[c as int]);
                if t.len() == 0 {
                    Seq::empty()
                } else if in_else_branch(v, j, call) {
                    seq!["!("@ + t + ")"@]
                } else {
                    seq![t]
                }
            },
            None => Seq::empty(),
        }
    } else if v[j].kind == "switch_case"@ {
        match field_child(v, j, "value"@) {
            Some(c) => {
                let t = node_text(src, v[c as int]);
                if t.len() == 0 { Seq::empty() } else { seq![t] }
            },
            None => Seq::empty(),
        }
    } else if v[j].kind == "switch_default"@ {
        seq!["default"@]
    } else {
        Seq::empty()
    }
}

/// Law: an `if` puts opposite conditions on its two branches. A call that
/// starts inside the `if`'s `else` branch runs under `!(c)`, where `c` is
/// the text of the `if`'s condition, never under `c` itself; any other call
/// under the `if` runs under `c`.
pub proof fn law_js_else_branch_negated(v: Seq<SyntaxNodeV>, src: Seq<u8>, j: int, call: int)
    requires
        0 <= j < v.len(),
        0 <= call < v.len(),
        v[j].kind == "if_statement"@,
        field_child(v, j, "condition"@) matches Some(c) && node_text(src, v[c as int]).len() > 0,
    ensures
        ({
            let c = field_child(v, j, "condition"@)->0 as int;
            let t = node_text(src, v[c]);
            let in_else = field_child(v, j, "alternative"@) matches Some(a) && a < v.len()
                && v[a as int].start_byte <= v[call].start_byte < v[a as int].end_byte;
            &&& in_else ==> js_condition_at(v, src, j, call) == seq!["!("@ + t + ")"@]
            &&& !in_else ==> js_condition_at(v, src, j, call) == seq![t]
        }),
{
}

/// The conditions from node `j` up to the enclosing function, outermost first.
pub open spec fn js_conditions_from(v: Seq<SyntaxNodeV>, src: Seq<u8>, j: int, call: int) -> Seq<Seq<char>>
    decreases j + 1,
{
    if j < 0 || j >= v.len() || js_function_boundary(v[j].kind) {
        Seq::empty()
    } else {
        let up = match v[j].parent {
            Some(p) => if p < j { p as int } else { -1 },
            None => -1,
        };
        js_conditions_from(v, src, up, call) + js_condition_at(v, src, j, call)
    }
}

/// The branch conditions under which the call at `call` runs, outermost first.
pub open spec fn js_conditions(v: Seq<SyntaxNodeV>, src: Seq<u8>, call: int) -> Seq<Seq<char>> {
    match v[call].parent {
        Some(p) => if p < call { js_conditions_from(v, src, p as int, call) } else { Seq::empty() },
        None => Seq::empty(),
    }
}

fn condition_at(t: &SyntaxTree, src: &[u8], j: usize, call: usize) -> (res: Vec<String>)
    requires
        j < t@.len(),
        call < t@.len(),
    ensures
        strings_view(res@) == js_condition_at(t@, src@, j as int, call as int),
{
    let node = t.node(j);
    let mut res: Vec<String> = Vec::new();
    if str_eq(node.kind.as_str(), "if_statement") {
        if let Some(c) = t.child_by_field(j, "condition") {
            let text = node_text_of(src, t.node(c));
            if text.as_str().unicode_len() > 0 {
                if is_in_else_branch(t, j, call) {
                    let head = concat("!(", text.as_str());
                    res.push(concat(head.as_str(), ")"));
                } else {
                    res.push(text);
                }
            }
        }
    } else if str_eq(node.kind.as_str(), "switch_case") {
        if let Some(c) = t.child_by_field(j, "value") {
            let text = node_text_of(src, t.node(c));
            if text.as_str().unicode_len() > 0 {
                res.push(text);
            }
        }
    } else if str_eq(node.kind.as_str(), "switch_default") {
        res.push(concat("default", ""));
        proof {
            reveal_strlit("");
        }
    }
    assert(strings_view(res@) =~= js_condition_at(t@, src@, j as int, call as int));
    res
}

fn conditions_from(t: &SyntaxTree, src: &[u8], j: Option<usize>, call: usize) -> (res: Vec<String>)
    requires
        call < t@.len(),
        j matches Some(x) ==> x < t@.len(),
    ensures
        strings_view(res@) == js_conditions_from(t@, src@, match j { Some(x) => x as int, None => -1 }, call as int),
    decreases match j { Some(x) => x as int + 1, None => 0 },
{
    match j {
        None => {
            let res: Vec<String> = Vec::new();
            assert(strings_view(res@) =~= Seq::<Seq<char>>::empty());
            res
        },
        Some(x) => {
            let k = t.node(x).kind.as_str();
            if str_eq(k, "function_declaration") || str_eq(k, "function_expression") || str_eq(k, "arrow_function")
                || str_eq(k, "method_definition") {
                let res: Vec<String> = Vec::new();
                assert(strings_view(res@) =~= Seq::<Seq<char>>::empty());
                return res;
            }
            let up = t.parent(x);
            let mut res = conditions_from(t, src, up, call);
            let ghost mid = strings_view(res@);
            let here = condition_at(t, src, x, call);
            let ghost hv = strings_view(here@);
            let mut m: usize = 0;
            while m < here.len()
                invariant
                    m <= here@.len(),
                    hv == strings_view(here@),
                    strings_view(res@) == mid + hv.take(m as int),
                decreases here@.len() - m,
            {
                let item = concat(here[m].as_str(), "");
                proof {
                    reveal_strlit("");
                    lemma_strings_view_push(res@, item);
                }
                assert(item@ == hv[m as int]);
                res.push(item);
                m = m + 1;
                assert(strings_view(res@) =~= mid + hv.take(m as int));
            }
            assert(hv.take(here@.len() as int) =~= hv);
            res
        },
    }
}

fn conditions_of(t: &SyntaxTree, src: &[u8], call: usize) -> (res: Vec<String>)
    requires
        call < t@.len(),
    ensures
        strings_view(res@) == js_conditions(t@, src@, call as int),
{
    let p = t.parent(call);
    conditions_from(t, src, p, call)
}

// ---------------------------------------------------------------------
// Functions passed as arguments
// ---------------------------------------------------------------------

/// The references in the arguments of the call at `call`, added to `refs`.
pub open spec fn js_arg_refs(v: Seq<SyntaxNodeV>, src: Seq<u8>, call: int, refs: Seq<ReferenceSiteV>)
    -> Seq<ReferenceSiteV>
    decreases v.len() - call, 3nat, 0int,
{
    if !(0 <= call < v.len()) {
        refs
    } else {
        match (field_child(v, call, "function"@), field_child(v, call, "arguments"@)) {
            (Some(f), Some(a)) => if call < a < v.len() && f < v.len() {
                js_ref_args(v, src, a as int, 0, node_text(src, v[f as int]), refs)
            } else {
                refs
            },
            _ => refs,
        }
    }
}

pub open spec fn js_ref_args(v: Seq<SyntaxNodeV>, src: Seq<u8>, a: int, k: int, callee: Seq<char>,
    refs: Seq<ReferenceSiteV>) -> Seq<ReferenceSiteV>
    decreases v.len() - a, 1nat, named_kids(v, a).len() - k,
{
    if !(0 <= a < v.len()) || k < 0 || k >= named_kids(v, a).len() {
        refs
    } else {
        let c = named_kids(v, a)[k];
        let next = if a < c < v.len() { js_ref_exprs(v, src, c as int, callee, refs) } else { refs };
        js_ref_args(v, src, a, k + 1, callee, next)
    }
}

/// The references within node `i`, an argument passed to `callee`.
pub open spec fn js_ref_exprs(v: Seq<SyntaxNodeV>, src: Seq<u8>, i: int, callee: Seq<char>,
    refs: Seq<ReferenceSiteV>) -> Seq<ReferenceSiteV>
    decreases v.len() - i, 4nat, 0int,
{
    if !(0 <= i < v.len()) || js_skip(v, i) {
        refs
    } else if v[i].kind == "call_expression"@ {
        js_arg_refs(v, src, i, refs)
    } else {
        match js_ref_name(v, src, i) {
            Some(t) => add_ref(refs, t, passed_to(callee)),
            None => js_ref_named(v, src, i, 0, callee, refs),
        }
    }
}

pub open spec fn js_ref_named(v: Seq<SyntaxNodeV>, src: Seq<u8>, i: int, k: int, callee: Seq<char>,
    refs: Seq<ReferenceSiteV>) -> Seq<ReferenceSiteV>
    decreases v.len() - i, 2nat, named_kids(v, i).len() - k,
{
    if !(0 <= i < v.len()) || k < 0 || k >= named_kids(v, i).len() {
        refs
    } else {
        let c = named_kids(v, i)[k];
        let next = if i < c < v.len() { js_ref_exprs(v, src, c as int, callee, refs) } else { refs };
        js_ref_named(v, src, i, k + 1, callee, next)
    }
}

fn arg_refs(t: &SyntaxTree, src: &[u8], call: usize, refs: &mut Vec<ReferenceSite>)
    requires
        call < t@.len(),
    ensures
        ref_sites_view(final(refs)@) == js_arg_refs(t@, src@, call as int, ref_sites_view(old(refs)@)),
    decreases t@.len() - call, 3nat, 0int,
{
    match (t.child_by_field(call, "function"), t.child_by_field(call, "arguments")) {
        (Some(f), Some(a)) => {
            let callee = node_text_of(src, t.node(f));
            let _ = t.len();
            let named = t.named_children(a);
            proof {
                lemma_named_kids(t@, a as int);
            }
            let mut k: usize = 0;
            while k < named.len()
                invariant
                    a < t@.len(),
                    call < a,
                    named@ == named_kids(t@, a as int),
                    forall|m: int| 0 <= m < named@.len() ==> a < #[trigger] named@[m] < t@.len(),
                    k <= named@.len(),
                    js_arg_refs(t@, src@, call as int, ref_sites_view(old(refs)@))
                        == js_ref_args(t@, src@, a as int, k as int, callee@, ref_sites_view(refs@)),
                decreases named@.len() - k,
            {
                ref_exprs(t, src, named[k], callee.as_str(), refs);
                k = k + 1;
            }
        },
        _ => {},
    }
}

fn ref_exprs(t: &SyntaxTree, src: &[u8], i: usize, callee: &str, refs: &mut Vec<ReferenceSite>)
    requires
        i < t@.len(),
    ensures
        ref_sites_view(final(refs)@) == js_ref_exprs(t@, src@, i as int, callee@, ref_sites_view(old(refs)@)),
    decreases t@.len() - i, 4nat, 0int,
{
    if skips(t, i) {
        return;
    }
    let node = t.node(i);
    let kind = node.kind.as_str();
    if str_eq(kind, "call_expression") {
        arg_refs(t, src, i, refs);
        return;
    }
    let named_ref = if str_eq(kind, "identifier") || str_eq(kind, "property_identifier")
        || str_eq(kind, "private_property_identifier") || str_eq(kind, "member_expression") {
        node_text_if_non_empty_of(src, node)
    } else {
        None
    };
    match named_ref {
        Some(target) => {
            let context = passed_to_context(callee);
            add_reference(refs, target, context);
        },
        None => {
            let _ = t.len();
            proof {
                lemma_named_kids(t@, i as int);
            }
            let ks = t.named_children(i);
            let mut k: usize = 0;
            while k < ks.len()
                invariant
                    i < t@.len(),
                    ks@ == named_kids(t@, i as int),
                    forall|m: int| 0 <= m < ks@.len() ==> i < #[trigger] ks@[m] < t@.len(),
                    k <= ks@.len(),
                    js_ref_named(t@, src@, i as int, 0, callee@, ref_sites_view(old(refs)@))
                        == js_ref_named(t@, src@, i as int, k as int, callee@, ref_sites_view(refs@)),
                decreases ks@.len() - k,
            {
                ref_exprs(t, src, ks[k], callee, refs);
                k = k + 1;
            }
        },
    }
}

// ---------------------------------------------------------------------
// Calls
// ---------------------------------------------------------------------

/// The call sites and references of the code at node `i` on; declarations
/// and named function values within it are skipped.
pub open spec fn js_calls(v: Seq<SyntaxNodeV>, src: Seq<u8>, i: int, acc: (Seq<CallSiteV>, Seq<ReferenceSiteV>))
    -> (Seq<CallSiteV>, Seq<ReferenceSiteV>)
    decreases v.len() - i, 1nat, 0int,
{
    if !(0 <= i < v.len()) || js_skip(v, i) {
        acc
    } else {
        let acc1 = if v[i].kind == "call_expression"@ {
            let calls = match field_child(v, i, "function"@) {
                Some(f) => if f < v.len() && node_text(src, v[f as int]).len() > 0 {
                    acc.0.push(CallSiteV { callee_name: node_text(src, v[f as int]), conditions: js_conditions(v, src, i) })
                } else {
                    acc.0
                },
                None => acc.0,
            };
            (calls, js_arg_refs(v, src, i, acc.1))
        } else {
            acc
        };
        js_calls_named(v, src, i, 0, acc1)
    }
}

pub open spec fn js_calls_named(v: Seq<SyntaxNodeV>, src: Seq<u8>, i: int, k: int,
    acc: (Seq<CallSiteV>, Seq<ReferenceSiteV>)) -> (Seq<CallSiteV>, Seq<ReferenceSiteV>)
    decreases v.len() - i, 0nat, named_kids(v, i).len() - k,
{
    if !(0 <= i < v.len()) || k < 0 || k >= named_kids(v, i).len() {
        acc
    } else {
        let c = named_kids(v, i)[k];
        let next = if i < c < v.len() { js_calls(v, src, c as int, acc) } else { acc };
        js_calls_named(v, src, i, k + 1, next)
    }
}

pub fn calls_in(t: &SyntaxTree, src: &[u8], i: usize, calls: &mut Vec<CallSite>, refs: &mut Vec<ReferenceSite>)
    requires
        i < t@.len(),
    ensures
        (call_sites_view(final(calls)@), ref_sites_view(final(refs)@))
            == js_calls(t@, src@, i as int, (call_sites_view(old(calls)@), ref_sites_view(old(refs)@))),
    decreases t@.len() - i, 1nat, 0int,
{
    if skips(t, i) {
        return;
    }
    let node = t.node(i);
    if str_eq(node.kind.as_str(), "call_expression") {
        match t.child_by_field(i, "function") {
            Some(f) => {
                let name = node_text_of(src, t.node(f));
                if name.as_str().unicode_len() > 0 {
                    let conditions = conditions_of(t, src, i);
                    let site = CallSite { callee_name: name, conditions };
                    proof {
                        lemma_call_sites_push(calls@, site);
                    }
                    calls.push(site);
                }
            },
            None => {},
        }
        arg_refs(t, src, i, refs);
    }
    let _ = t.len();
    proof {
        lemma_named_kids(t@, i as int);
    }
    let ks = t.named_children(i);
    let mut k: usize = 0;
    while k < ks.len()
        invariant
            i < t@.len(),
            ks@ == named_kids(t@, i as int),
            forall|m: int| 0 <= m < ks@.len() ==> i < #[trigger] ks@[m] < t@.len(),
            k <= ks@.len(),
            js_calls(t@, src@, i as int, (call_sites_view(old(calls)@), ref_sites_view(old(refs)@)))
                == js_calls_named(t@, src@, i as int, k as int, (call_sites_view(calls@), ref_sites_view(refs@))),
        decreases ks@.len() - k,
    {
        calls_in(t, src, ks[k], calls, refs);
        k = k + 1;
    }
}

// ---------------------------------------------------------------------
// Functions
// ---------------------------------------------------------------------

/// The function defined at `def` whose body hangs off `fnode`, named `name`,
/// after the functions nested in its body; nothing when it has no body, or
/// when it is a test and tests are left out.
pub open spec fn js_named_function(v: Seq<SyntaxNodeV>, src: Seq<u8>, ctx: ParseContextV, def: int, fnode: int,
    name: Seq<char>, scopes: Seq<Seq<char>>, acc: Seq<FunctionArtifactV>) -> Seq<FunctionArtifactV>
    decreases v.len() - def, 2nat, 0int,
{
    if !(0 <= def <= fnode < v.len()) {
        acc
    } else {
        match field_child(v, fnode, "body"@) {
            Some(b) => if fnode < b < v.len() {
                let is_test = function_is_test_spec(ctx, name);
                if !ctx.include_tests && is_test {
                    acc
                } else {
                    let sites = js_calls(v, src, b as int, (Seq::empty(), Seq::empty()));
                    let acc1 = js_fns_named(v, src, ctx, b as int, 0, scopes.push(name), acc);
                    acc1.push(FunctionArtifactV {
                        name: name,
                        qualified_name: qualified_spec(ctx.module_name, scopes, name),
                        language: ctx.language,
                        is_test: is_test,
                        line: line_of_row(v[def].start_row),
                        end_line: line_of_row(v[def].end_row),
                        call_sites: sites.0,
                        reference_sites: sites.1,
                    })
                }
            } else {
                acc
            },
            None => acc,
        }
    }
}

/// The name a declarator binds, when it is a plain name.
pub open spec fn js_declarator_name(v: Seq<SyntaxNodeV>, src: Seq<u8>, nn: int) -> Seq<char> {
    if v[nn].kind == "identifier"@ { node_text(src, v[nn]) } else { Seq::empty() }
}

/// The functions from node `i` on, after `acc`. Classes, named object
/// literals and named functions add their names to the scopes of what they
/// hold; a function comes after those nested in it.
pub open spec fn js_fns(v: Seq<SyntaxNodeV>, src: Seq<u8>, ctx: ParseContextV, i: int, scopes: Seq<Seq<char>>,
    acc: Seq<FunctionArtifactV>) -> Seq<FunctionArtifactV>
    decreases v.len() - i, 3nat, 0int,
{
    if !(0 <= i < v.len()) {
        acc
    } else {
        let k = v[i].kind;
        if k == "class_declaration"@ {
            match field_child(v, i, "name"@) {
                Some(nn) => if nn < v.len() {
                    match field_child(v, i, "body"@) {
                        Some(b) => if i < b < v.len() {
                            js_fns_named(v, src, ctx, b as int, 0, scopes.push(node_text(src, v[nn as int])), acc)
                        } else {
                            acc
                        },
                        None => acc,
                    }
                } else {
                    acc
                },
                None => acc,
            }
        } else if k == "function_declaration"@ && field_child(v, i, "name"@) is Some
            && field_child(v, i, "name"@)->0 < v.len() {
            js_named_function(v, src, ctx, i, i, node_text(src, v[field_child(v, i, "name"@)->0 as int]), scopes, acc)
        } else if k == "method_definition"@ && field_child(v, i, "name"@) is Some
            && field_child(v, i, "name"@)->0 < v.len()
            && js_property_name(v, src, field_child(v, i, "name"@)->0 as int) is Some {
            js_named_function(v, src, ctx, i, i, js_property_name(v, src, field_child(v, i, "name"@)->0 as int)->0,
                scopes, acc)
        } else if k == "variable_declarator"@ && field_child(v, i, "name"@) is Some
            && field_child(v, i, "name"@)->0 < v.len()
            && js_declarator_name(v, src, field_child(v, i, "name"@)->0 as int).len() > 0
            && field_child(v, i, "value"@) is Some && i < field_child(v, i, "value"@)->0 < v.len()
            && (js_function_value(v[field_child(v, i, "value"@)->0 as int].kind)
                || v[field_child(v, i, "value"@)->0 as int].kind == "object"@) {
            let name = js_declarator_name(v, src, field_child(v, i, "name"@)->0 as int);
            let val = field_child(v, i, "value"@)->0 as int;
            if js_function_value(v[val].kind) {
                js_named_function(v, src, ctx, i, val, name, scopes, acc)
            } else {
                js_fns_named(v, src, ctx, val, 0, scopes.push(name), acc)
            }
        } else if k == "pair"@ {
            match (field_child(v, i, "key"@), field_child(v, i, "value"@)) {
                (Some(key), Some(val)) => if key < v.len() && i < val < v.len() {
                    match js_property_name(v, src, key as int) {
                        Some(name) => if js_function_value(v[val as int].kind) {
                            js_named_function(v, src, ctx, i, val as int, name, scopes, acc)
                        } else if v[val as int].kind == "object"@ {
                            js_fns_named(v, src, ctx, val as int, 0, scopes.push(name), acc)
                        } else {
                            js_fns_named(v, src, ctx, i, 0, scopes, acc)
                        },
                        None => acc,
                    }
                } else {
                    acc
                },
                _ => acc,
            }
        } else {
            js_fns_named(v, src, ctx, i, 0, scopes, acc)
        }
    }
}

pub open spec fn js_fns_named(v: Seq<SyntaxNodeV>, src: Seq<u8>, ctx: ParseContextV, i: int, k: int,
    scopes: Seq<Seq<char>>, acc: Seq<FunctionArtifactV>) -> Seq<FunctionArtifactV>
    decreases v.len() - i, 1nat, named_kids(v, i).len() - k,
{
    if !(0 <= i < v.len()) || k < 0 || k >= named_kids(v, i).len() {
        acc
    } else {
        let c = named_kids(v, i)[k];
        let next = if i < c < v.len() { js_fns(v, src, ctx, c as int, scopes, acc) } else { acc };
        js_fns_named(v, src, ctx, i, k + 1, scopes, next)
    }
}

/// The function defined at `def`, and those nested in it, carry the
/// file's language.
pub proof fn lemma_js_named_function_language(v: Seq<SyntaxNodeV>, src: Seq<u8>, ctx: ParseContextV, def: int,
    fnode: int, name: Seq<char>, scopes: Seq<Seq<char>>, acc: Seq<FunctionArtifactV>)
    requires
        all_of_language(acc, ctx.language),
    ensures
        all_of_language(js_named_function(v, src, ctx, def, fnode, name, scopes, acc), ctx.language),
    decreases v.len() - def, 2nat, 0int,
{
    if 0 <= def <= fnode < v.len() {
        if let Some(b) = field_child(v, fnode, "body"@) {
            if fnode < b < v.len() {
                lemma_js_fns_named_language(v, src, ctx, b as int, 0, scopes.push(name), acc);
            }
        }
    }
}

/// The functions found from node `i` on all carry the file's language.
pub proof fn lemma_js_fns_language(v: Seq<SyntaxNodeV>, src: Seq<u8>, ctx: ParseContextV, i: int,
    scopes: Seq<Seq<char>>, acc: Seq<FunctionArtifactV>)
    requires
        all_of_language(acc, ctx.language),
    ensures
        all_of_language(js_fns(v, src, ctx, i, scopes, acc), ctx.language),
    decreases v.len() - i, 3nat, 0int,
{
    if 0 <= i < v.len() {
        let k = v[i].kind;
        if k == "class_declaration"@ {
            if let Some(nn) = field_child(v, i, "name"@) {
                if nn < v.len() {
                    if let Some(b) = field_child(v, i, "body"@) {
                        if i < b < v.len() {
                            lemma_js_fns_named_language(v, src, ctx, b as int, 0,
                                scopes.push(node_text(src, v[nn as int])), acc);
                        }
                    }
                }
            }
        } else if k == "function_declaration"@ && field_child(v, i, "name"@) is Some
            && field_child(v, i, "name"@)->0 < v.len() {
            lemma_js_named_function_language(v, src, ctx, i, i,
                node_text(src, v[field_child(v, i, "name"@)->0 as int]), scopes, acc);
        } else if k == "method_definition"@ && field_child(v, i, "name"@) is Some
            && field_child(v, i, "name"@)->0 < v.len()
            && js_property_name(v, src, field_child(v, i, "name"@)->0 as int) is Some {
            lemma_js_named_function_language(v, src, ctx, i, i,
                js_property_name(v, src, field_child(v, i, "name"@)->0 as int)->0, scopes, acc);
        } else if k == "variable_declarator"@ && field_child(v, i, "name"@) is Some
            && field_child(v, i, "name"@)->0 < v.len()
            && js_declarator_name(v, src, field_child(v, i, "name"@)->0 as int).len() > 0
            && field_child(v, i, "value"@) is Some && i < field_child(v, i, "value"@)->0 < v.len()
            && (js_function_value(v[field_child(v, i, "value"@)->0 as int].kind)
                || v[field_child(v, i, "value"@)->0 as int].kind == "object"@) {
            let name = js_declarator_name(v, src, field_child(v, i, "name"@)->0 as int);
            let val = field_child(v, i, "value"@)->0 as int;
            if js_function_value(v[val].kind) {
                lemma_js_named_function_language(v, src, ctx, i, val, name, scopes, acc);
            } else {
                lemma_js_fns_named_language(v, src, ctx, val, 0, scopes.push(name), acc);
            }
        } else if k == "pair"@ {
            if let (Some(key), Some(val)) = (field_child(v, i, "key"@), field_child(v, i, "value"@)) {
                if key < v.len() && i < val < v.len() {
                    if let Some(name) = js_property_name(v, src, key as int) {
                        if js_function_value(v[val as int].kind) {
                            lemma_js_named_function_language(v, src, ctx, i, val as int, name, scopes, acc);
                        } else if v[val as int].kind == "object"@ {
                            lemma_js_fns_named_language(v, src, ctx, val as int, 0, scopes.push(name), acc);
                        } else {
                            lemma_js_fns_named_language(v, src, ctx, i, 0, scopes, acc);
                        }
                    }
                }
            }
        } else {
            lemma_js_fns_named_language(v, src, ctx, i, 0, scopes, acc);
        }
    }
}

/// The functions found among the named children of `i` all carry the
/// file's language.
pub proof fn lemma_js_fns_named_language(v: Seq<SyntaxNodeV>, src: Seq<u8>, ctx: ParseContextV, i: int, k: int,
    scopes: Seq<Seq<char>>, acc: Seq<FunctionArtifactV>)
    requires
        all_of_language(acc, ctx.language),
    ensures
        all_of_language(js_fns_named(v, src, ctx, i, k, scopes, acc), ctx.language),
    decreases v.len() - i, 1nat, named_kids(v, i).len() - k,
{
    if 0 <= i < v.len() && 0 <= k < named_kids(v, i).len() {
        let c = named_kids(v, i)[k];
        if i < c < v.len() {
            lemma_js_fns_language(v, src, ctx, c as int, scopes, acc);
        }
        let next = if i < c < v.len() { js_fns(v, src, ctx, c as int, scopes, acc) } else { acc };
        lemma_js_fns_named_language(v, src, ctx, i, k + 1, scopes, next);
    }
}

/// The functions of a JavaScript or TypeScript file.
pub open spec fn js_extract(v: Seq<SyntaxNodeV>, src: Seq<u8>, ctx: ParseContextV) -> FileArtifactV {
    FileArtifactV { source_hash: Seq::empty(), functions: js_fns(v, src, ctx, 0, Seq::empty(), Seq::empty()) }
}

fn collect_named(t: &SyntaxTree, src: &[u8], ctx: &ParseContext, i: usize, scopes: &Vec<String>,
    out: &mut Vec<FunctionArtifact>)
    requires
        i < t@.len(),
    ensures
        functions_view(final(out)@) == js_fns_named(t@, src@, ctx@, i as int, 0, strings_view(scopes@),
            functions_view(old(out)@)),
    decreases t@.len() - i, 1nat, t@.len() + 1,
{
    let _ = t.len();
    proof {
        lemma_named_kids(t@, i as int);
    }
    let ks = t.named_children(i);
    let mut k: usize = 0;
    while k < ks.len()
        invariant
            i < t@.len(),
            ks@ == named_kids(t@, i as int),
            forall|m: int| 0 <= m < ks@.len() ==> i < #[trigger] ks@[m] < t@.len(),
            k <= ks@.len(),
            js_fns_named(t@, src@, ctx@, i as int, 0, strings_view(scopes@), functions_view(old(out)@))
                == js_fns_named(t@, src@, ctx@, i as int, k as int, strings_view(scopes@), functions_view(out@)),
        decreases ks@.len() - k,
    {
        collect_functions(t, src, ctx, ks[k], scopes, out);
        k = k + 1;
    }
}

fn with_scope(scopes: &Vec<String>, name: &str) -> (res: Vec<String>)
    ensures
        strings_view(res@) == strings_view(scopes@).push(name@),
{
    let mut res = clone_strings(scopes);
    let x = concat(name, "");
    proof {
        reveal_strlit("");
        lemma_strings_view_push(res@, x);
    }
    res.push(x);
    res
}

/// Adds the function defined at `def` whose body hangs off `fnode`.
fn named_function(t: &SyntaxTree, src: &[u8], ctx: &ParseContext, def: usize, fnode: usize, name: String,
    scopes: &Vec<String>, out: &mut Vec<FunctionArtifact>)
    requires
        def <= fnode < t@.len(),
    ensures
        functions_view(final(out)@) == js_named_function(t@, src@, ctx@, def as int, fnode as int, name@,
            strings_view(scopes@), functions_view(old(out)@)),
    decreases t@.len() - def, 2nat, 0int,
{
    let b = match t.child_by_field(fnode, "body") {
        Some(b) => b,
        None => {
            return;
        },
    };
    let is_test = ctx.function_is_test(name.as_str());
    if !ctx.include_tests && is_test {
        return;
    }
    let mut calls: Vec<CallSite> = Vec::new();
    let mut refs: Vec<ReferenceSite> = Vec::new();
    assert(call_sites_view(calls@) =~= Seq::<CallSiteV>::empty());
    assert(ref_sites_view(refs@) =~= Seq::<ReferenceSiteV>::empty());
    calls_in(t, src, b, &mut calls, &mut refs);
    let inner = with_scope(scopes, name.as_str());
    collect_named(t, src, ctx, b, &inner, out);
    let qualified_name = ctx.qualified_name(scopes, name.as_str());
    let node = t.node(def);
    let f = FunctionArtifact {
        name,
        qualified_name,
        language: ctx.language,
        is_test,
        line: row_line(node.start_row),
        end_line: row_line(node.end_row),
        call_sites: calls,
        reference_sites: refs,
    };
    proof {
        lemma_functions_push(out@, f);
    }
    out.push(f);
}

/// Adds the functions from node `i` on.
fn collect_functions(t: &SyntaxTree, src: &[u8], ctx: &ParseContext, i: usize, scopes: &Vec<String>,
    out: &mut Vec<FunctionArtifact>)
    requires
        i < t@.len(),
    ensures
        functions_view(final(out)@) == js_fns(t@, src@, ctx@, i as int, strings_view(scopes@), functions_view(old(out)@)),
    decreases t@.len() - i, 3nat, 0int,
{
    let node = t.node(i);
    let kind = node.kind.as_str();
    if str_eq(kind, "class_declaration") {
        if let Some(nn) = t.child_by_field(i, "name") {
            let class_name = node_text_of(src, t.node(nn));
            if let Some(b) = t.child_by_field(i, "body") {
                let inner = with_scope(scopes, class_name.as_str());
                collect_named(t, src, ctx, b, &inner, out);
            }
        }
        return;
    }
    if str_eq(kind, "function_declaration") {
        if let Some(nn) = t.child_by_field(i, "name") {
            let name = node_text_of(src, t.node(nn));
            named_function(t, src, ctx, i, i, name, scopes, out);
            return;
        }
    }
    if str_eq(kind, "method_definition") {
        if let Some(nn) = t.child_by_field(i, "name") {
            if let Some(name) = property_name(t, src, nn) {
                named_function(t, src, ctx, i, i, name, scopes, out);
                return;
            }
        }
    }
    if str_eq(kind, "variable_declarator") {
        if let Some(nn) = t.child_by_field(i, "name") {
            let name = if str_eq(t.node(nn).kind.as_str(), "identifier") {
                node_text_of(src, t.node(nn))
            } else {
                empty_string()
            };
            if let Some(val) = t.child_by_field(i, "value") {
                let vk = t.node(val).kind.as_str();
                if name.as_str().unicode_len() > 0 && (str_eq(vk, "function_expression") || str_eq(vk, "arrow_function")) {
                    named_function(t, src, ctx, i, val, name, scopes, out);
                    return;
                }
                if name.as_str().unicode_len() > 0 && str_eq(vk, "object") {
                    let inner = with_scope(scopes, name.as_str());
                    collect_named(t, src, ctx, val, &inner, out);
                    return;
                }
            }
        }
    }
    if str_eq(kind, "pair") {
        let key = match t.child_by_field(i, "key") {
            Some(key) => key,
            None => {
                return;
            },
        };
        let val = match t.child_by_field(i, "value") {
            Some(val) => val,
            None => {
                return;
            },
        };
        let name = match property_name(t, src, key) {
            Some(name) => name,
            None => {
                return;
            },
        };
        let vk = t.node(val).kind.as_str();
        if str_eq(vk, "function_expression") || str_eq(vk, "arrow_function") {
            named_function(t, src, ctx, i, val, name, scopes, out);
            return;
        }
        if str_eq(vk, "object") {
            let inner = with_scope(scopes, name.as_str());
            collect_named(t, src, ctx, val, &inner, out);
            return;
        }
    }
    collect_named(t, src, ctx, i, scopes, out);
}

/// The functions of a JavaScript or TypeScript file, with their calls and
/// references.
pub fn extract(t: &SyntaxTree, src: &[u8], ctx: &ParseContext) -> (res: FileArtifact)
    ensures
        res@ == js_extract(t@, src@, ctx@),
{
    let mut functions: Vec<FunctionArtifact> = Vec::new();
    assert(functions_view(functions@) =~= Seq::<FunctionArtifactV>::empty());
    let scopes: Vec<String> = Vec::new();
    assert(strings_view(scopes@) =~= Seq::<Seq<char>>::empty());
    if t.len() > 0 {
        collect_functions(t, src, ctx, 0, &scopes, &mut functions);
    }
    let res = FileArtifact { source_hash: empty_string(), functions };
    assert(res@ =~= js_extract(t@, src@, ctx@));
    res
}

} // verus!
