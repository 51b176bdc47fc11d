use vstd::prelude::*;
use vstd::utf8::encode_utf8;
use crate::text::{concat, str_eq, empty_string, chars_of, string_from_range, trim, trimmed, seq_contains};
use crate::analysis::codepaths::types::{ReferenceSite, ReferenceSiteV, CallSite, CallSiteV, FunctionArtifact,
    FunctionArtifactV, FileArtifact, FileArtifactV, GraphReferenceKind, Language, opt_string_view, strings_view,
    clone_strings, all_of_language};
use super::{ParseContext, ParseContextV, qualified_spec, line_of_row, row_line, functions_view, lemma_functions_push,
    ref_sites_view, call_sites_view, lemma_call_sites_push, lemma_ref_sites_push, opt_str_eq};
use super::javascript::{js_extract, extract as js_file, lemma_js_fns_language};
use super::syntax::{SyntaxNodeV, SyntaxTree, named_kids, node_text, lemma_named_kids, node_text_of, opt_text_view,
    parsed_tree, parse_tree, tree_opt_view};

verus! {

// ---------------------------------------------------------------------
// Scripts
// ---------------------------------------------------------------------

/// A line moved down by `off` rows, wrapping as machine integers do.
pub open spec fn shifted(line: usize, off: usize) -> usize {
    if off <= usize::MAX - line { (line + off) as usize } else { (off - (usize::MAX - line) - 1) as usize }
}

fn shift(line: usize, off: usize) -> (res: usize)
    ensures
        res == shifted(line, off),
{
    if off <= usize::MAX - line { line + off } else { off - (usize::MAX - line) - 1 }
}

/// Functions moved down by `off` rows.
pub open spec fn shift_functions(fs: Seq<FunctionArtifactV>, off: usize) -> Seq<FunctionArtifactV> {
    fs.map_values(|f: FunctionArtifactV| FunctionArtifactV {
        line: shifted(f.line, off),
        end_line: shifted(f.end_line, off),
        ..f
    })
}

/// The functions of the script at node `c` (a `raw_text` of a script
/// element), read as TypeScript and moved to the script's place in the file.
pub open spec fn sv_raw_script(v: Seq<SyntaxNodeV>, src: Seq<u8>, ctx: ParseContextV, c: int,
    acc: Seq<FunctionArtifactV>) -> Seq<FunctionArtifactV> {
    let script = node_text(src, v[c]);
    if script.len() == 0 {
        acc
    } else {
        match parsed_tree(Language::TypeScript, script) {
            Some(t2) => acc + shift_functions(js_extract(t2, encode_utf8(script), ctx).functions, v[c].start_row),
            None => acc,
        }
    }
}

/// The functions of the scripts among the named children of a script
/// element `i`, from the `k`-th on.
pub open spec fn sv_script_texts(v: Seq<SyntaxNodeV>, src: Seq<u8>, ctx: ParseContextV, i: int, k: int,
    acc: Seq<FunctionArtifactV>) -> Seq<FunctionArtifactV>
    decreases named_kids(v, i).len() - k,
{
    if k < 0 || k >= named_kids(v, i).len() {
        acc
    } else {
        let c = named_kids(v, i)[k];
        let next = if c < v.len() && v[c as int].kind == "raw_text"@ { sv_raw_script(v, src, ctx, c as int, acc) } else { acc };
        sv_script_texts(v, src, ctx, i, k + 1, next)
    }
}

/// The functions of the script elements from node `i` on.
pub open spec fn sv_scripts(v: Seq<SyntaxNodeV>, src: Seq<u8>, ctx: ParseContextV, i: int,
    acc: Seq<FunctionArtifactV>) -> Seq<FunctionArtifactV>
    decreases v.len() - i, 1nat, 0int,
{
    if !(0 <= i < v.len()) {
        acc
    } else if v[i].kind == "script_element"@ {
        sv_script_texts(v, src, ctx, i, 0, acc)
    } else {
        sv_scripts_named(v, src, ctx, i, 0, acc)
    }
}

pub open spec fn sv_scripts_named(v: Seq<SyntaxNodeV>, src: Seq<u8>, ctx: ParseContextV, i: int, k: int,
    acc: Seq<FunctionArtifactV>) -> Seq<FunctionArtifactV>
    decreases v.len() - i, 0nat, named_kids(v, i).len() - k,
{
    if !(0 <= i < v.len()) || k < 0 || k >= named_kids(v, i).len() {
        acc
    } else {
        let c = named_kids(v, i)[k];
        let next = if i < c < v.len() { sv_scripts(v, src, ctx, c as int, acc) } else { acc };
        sv_scripts_named(v, src, ctx, i, k + 1, next)
    }
}

/// Adds the functions of the script at node `c`.
fn raw_script(t: &SyntaxTree, src: &[u8], ctx: &ParseContext, c: usize, out: &mut Vec<FunctionArtifact>)
    requires
        c < t@.len(),
    ensures
        functions_view(final(out)@) == sv_raw_script(t@, src@, ctx@, c as int, functions_view(old(out)@)),
{
    let node = t.node(c);
    let script = node_text_of(src, node);
    if script.as_str().unicode_len() == 0 {
        return;
    }
    let tree = match parse_tree(Language::TypeScript, script.as_str()) {
        Some(tree) => tree,
        None => {
            return;
        },
    };
    let file = js_file(&tree, script.as_str().as_bytes(), ctx);
    let off = node.start_row;
    let ghost before = functions_view(out@);
    let ghost fs = file@.functions;
    let mut functions = file.functions;
    let mut m: usize = 0;
    while m < functions.len()
        invariant
            m <= functions@.len(),
            fs.len() == functions@.len(),
            forall|a: int| m <= a < fs.len() ==> (#[trigger] functions@[a])@ == fs[a],
            functions_view(out@) == before + shift_functions(fs, off).take(m as int),
        decreases functions@.len() - m,
    {
        let f = &functions[m];
        let moved = FunctionArtifact {
            name: concat(f.name.as_str(), ""),
            qualified_name: concat(f.qualified_name.as_str(), ""),
            language: f.language,
            is_test: f.is_test,
            line: shift(f.line, off),
            end_line: shift(f.end_line, off),
            call_sites: copy_calls(&f.call_sites),
            reference_sites: copy_refs(&f.reference_sites),
        };
        proof {
            reveal_strlit("");
            assert(moved@ =~= shift_functions(fs, off)[m as int]);
            lemma_functions_push(out@, moved);
        }
        out.push(moved);
        m = m + 1;
        assert(functions_view(out@) =~= before + shift_functions(fs, off).take(m as int));
    }
    assert(shift_functions(fs, off).take(fs.len() as int) =~= shift_functions(fs, off));
}

/// A copy of some call sites.
pub fn copy_calls(v: &Vec<CallSite>) -> (res: Vec<CallSite>)
    ensures
        call_sites_view(res@) == call_sites_view(v@),
{
    let mut res: Vec<CallSite> = Vec::new();
    let mut i: usize = 0;
    while i < v.len()
        invariant
            i <= v@.len(),
            call_sites_view(res@) == call_sites_view(v@).take(i as int),
        decreases v@.len() - i,
    {
        let c = CallSite { callee_name: concat(v[i].callee_name.as_str(), ""), conditions: clone_strings(&v[i].conditions) };
        proof {
            reveal_strlit("");
            assert(c@ =~= v@[i as int]@);
            lemma_call_sites_push(res@, c);
        }
        res.push(c);
        i = i + 1;
        assert(call_sites_view(res@) =~= call_sites_view(v@).take(i as int));
    }
    assert(call_sites_view(v@).take(v@.len() as int) =~= call_sites_view(v@));
    res
}

/// A copy of some reference sites.
pub fn copy_refs(v: &Vec<ReferenceSite>) -> (res: Vec<ReferenceSite>)
    ensures
        ref_sites_view(res@) == ref_sites_view(v@),
{
    let mut res: Vec<ReferenceSite> = Vec::new();
    let mut i: usize = 0;
    while i < v.len()
        invariant
            i <= v@.len(),
            ref_sites_view(res@) == ref_sites_view(v@).take(i as int),
        decreases v@.len() - i,
    {
        let context = match &v[i].context {
            Some(c) => Some(concat(c.as_str(), "")),
            None => None,
        };
        let r = ReferenceSite { target_name: concat(v[i].target_name.as_str(), ""), kind: v[i].kind, context };
        proof {
            reveal_strlit("");
            assert(r@ =~= v@[i as int]@);
            lemma_ref_sites_push(res@, r);
        }
        res.push(r);
        i = i + 1;
        assert(ref_sites_view(res@) =~= ref_sites_view(v@).take(i as int));
    }
    assert(ref_sites_view(v@).take(v@.len() as int) =~= ref_sites_view(v@));
    res
}

/// Adds the functions of the script elements from node `i` on.
fn scripts(t: &SyntaxTree, src: &[u8], ctx: &ParseContext, i: usize, out: &mut Vec<FunctionArtifact>)
    requires
        i < t@.len(),
    ensures
        functions_view(final(out)@) == sv_scripts(t@, src@, ctx@, i as int, functions_view(old(out)@)),
    decreases t@.len() - i, 1nat, 0int,
{
    let _ = t.len();
    proof {
        lemma_named_kids(t@, i as int);
    }
    let ks = t.named_children(i);
    let is_script = str_eq(t.node(i).kind.as_str(), "script_element");
    let mut k: usize = 0;
    while k < ks.len()
        invariant
            i < t@.len(),
            ks@ == named_kids(t@, i as int),
            forall|m: int| 0 <= m < ks@.len() ==> i < #[trigger] ks@[m] < t@.len(),
            k <= ks@.len(),
            is_script == (t@[i as int].kind == "script_element"@),
            is_script ==> sv_scripts(t@, src@, ctx@, i as int, functions_view(old(out)@))
                == sv_script_texts(t@, src@, ctx@, i as int, k as int, functions_view(out@)),
            !is_script ==> sv_scripts(t@, src@, ctx@, i as int, functions_view(old(out)@))
                == sv_scripts_named(t@, src@, ctx@, i as int, k as int, functions_view(out@)),
        decreases ks@.len() - k,
    {
        let c = ks[k];
        if is_script {
            if str_eq(t.node(c).kind.as_str(), "raw_text") {
                raw_script(t, src, ctx, c, out);
            }
        } else {
            scripts(t, src, ctx, c, out);
        }
        k = k + 1;
    }
}

// ---------------------------------------------------------------------
// The template
// ---------------------------------------------------------------------

/// The name under which a template expression is read.
pub open spec fn template_fn_name() -> Seq<char> {
    "__tracegrep_template__"@
}

/// A template expression wrapped in a function, so that it parses as
/// TypeScript.
pub open spec fn wrapped_expression(e: Seq<char>) -> Seq<char> {
    "function __tracegrep_template__() { "@ + e + "; }"@
}

/// The first function of `fs` named `name`.
pub open spec fn first_named(fs: Seq<FunctionArtifactV>, name: Seq<char>) -> Option<FunctionArtifactV>
    decreases fs.len(),
{
    if fs.len() == 0 {
        None
    } else if fs[0].name == name {
        Some(fs[0])
    } else {
        first_named(fs.drop_first(), name)
    }
}

/// `s` without leading or trailing braces and semicolons.
pub open spec fn trim_start_braces(s: Seq<char>) -> Seq<char>
    decreases s.len(),
{
    if s.len() > 0 && (s[0] == '{' || s[0] == '}' || s[0] == ';') { trim_start_braces(s.drop_first()) } else { s }
}

pub open spec fn trim_end_braces(s: Seq<char>) -> Seq<char>
    decreases s.len(),
{
    if s.len() > 0 && (s.last() == '{' || s.last() == '}' || s.last() == ';') { trim_end_braces(s.drop_last()) } else { s }
}

/// A template expression that is a bare name, without braces or
/// semicolons around it; none when it calls, assigns or has a space.
pub open spec fn simple_template_reference_spec(expression: Seq<char>) -> Option<Seq<char>> {
    let t = trimmed(expression);
    if t.len() == 0 || t.contains('(') || t.contains('=') || t.contains(' ') {
        None
    } else {
        let value = trim_end_braces(trim_start_braces(t));
        if value.len() > 0 { Some(value) } else { None }
    }
}

/// `sites` with each of `more` added that is not there already.
pub open spec fn add_calls_unique(sites: Seq<CallSiteV>, more: Seq<CallSiteV>) -> Seq<CallSiteV>
    decreases more.len(),
{
    if more.len() == 0 {
        sites
    } else {
        let prev = add_calls_unique(sites, more.drop_last());
        if prev.contains(more.last()) { prev } else { prev.push(more.last()) }
    }
}

pub open spec fn add_refs_unique(sites: Seq<ReferenceSiteV>, more: Seq<ReferenceSiteV>) -> Seq<ReferenceSiteV>
    decreases more.len(),
{
    if more.len() == 0 {
        sites
    } else {
        let prev = add_refs_unique(sites, more.drop_last());
        if prev.contains(more.last()) { prev } else { prev.push(more.last()) }
    }
}

/// The calls and references of a template expression: those of the
/// expression read as the body of a function, or, when that gives no
/// function, the bare name it is, used in the template.
pub open spec fn template_expression(ctx: ParseContextV, e: Seq<char>, sites: (Seq<CallSiteV>, Seq<ReferenceSiteV>))
    -> (Seq<CallSiteV>, Seq<ReferenceSiteV>)
{
    let wrapped = wrapped_expression(e);
    match parsed_tree(Language::TypeScript, wrapped) {
        Some(t2) => match first_named(js_extract(t2, encode_utf8(wrapped), ctx).functions, template_fn_name()) {
            Some(f) => (add_calls_unique(sites.0, f.call_sites), add_refs_unique(sites.1, f.reference_sites)),
            None => match simple_template_reference_spec(e) {
                Some(target) => (sites.0, add_refs_unique(sites.1, seq![ReferenceSiteV {
                    target_name: target,
                    kind: GraphReferenceKind::Argument,
                    context: Some("used in template"@),
                }])),
                None => sites,
            },
        },
        None => sites,
    }
}

/// What the walk over the template gathers: calls, references, and the
/// first and last line of its expressions.
pub type TemplateStateV = (Seq<CallSiteV>, Seq<ReferenceSiteV>, Option<usize>, usize);

/// The template expressions from node `i` on; scripts and styles are not
/// part of the template.
pub open spec fn sv_template(v: Seq<SyntaxNodeV>, src: Seq<u8>, ctx: ParseContextV, i: int, st: TemplateStateV)
    -> TemplateStateV
    decreases v.len() - i, 1nat, 0int,
{
    if !(0 <= i < v.len()) || v[i].kind == "script_element"@ || v[i].kind == "style_element"@ {
        st
    } else {
        let st1 = if v[i].kind == "svelte_raw_text"@ && node_text(src, v[i]).len() > 0 {
            let line = line_of_row(v[i].start_row);
            let first = match st.2 {
                Some(f) => Some(if f <= line { f } else { line }),
                None => Some(line),
            };
            let end = line_of_row(v[i].end_row);
            let last = if st.3 >= end { st.3 } else { end };
            let sites = template_expression(ctx, node_text(src, v[i]), (st.0, st.1));
            (sites.0, sites.1, first, last)
        } else {
            st
        };
        sv_template_named(v, src, ctx, i, 0, st1)
    }
}

pub open spec fn sv_template_named(v: Seq<SyntaxNodeV>, src: Seq<u8>, ctx: ParseContextV, i: int, k: int,
    st: TemplateStateV) -> TemplateStateV
    decreases v.len() - i, 0nat, named_kids(v, i).len() - k,
{
    if !(0 <= i < v.len()) || k < 0 || k >= named_kids(v, i).len() {
        st
    } else {
        let c = named_kids(v, i)[k];
        let next = if i < c < v.len() { sv_template(v, src, ctx, c as int, st) } else { st };
        sv_template_named(v, src, ctx, i, k + 1, next)
    }
}

/// The template as a function of its own, named `template`, when its
/// expressions call or reference anything.
pub open spec fn sv_template_artifact(v: Seq<SyntaxNodeV>, src: Seq<u8>, ctx: ParseContextV) -> Option<FunctionArtifactV> {
    let st = sv_template(v, src, ctx, 0, (Seq::empty(), Seq::empty(), None, 0));
    match st.2 {
        Some(line) => if st.0.len() == 0 && st.1.len() == 0 {
            None
        } else {
            Some(FunctionArtifactV {
                name: "template"@,
                qualified_name: qualified_spec(ctx.module_name, Seq::empty(), "template"@),
                language: ctx.language,
                is_test: ctx.file_is_test,
                line: line,
                end_line: if st.3 >= line { st.3 } else { line },
                call_sites: st.0,
                reference_sites: st.1,
            })
        },
        None => None,
    }
}

/// The functions of a script carry the Svelte file's language.
pub proof fn lemma_sv_raw_script_language(v: Seq<SyntaxNodeV>, src: Seq<u8>, ctx: ParseContextV, c: int,
    acc: Seq<FunctionArtifactV>)
    requires
        all_of_language(acc, ctx.language),
    ensures
        all_of_language(sv_raw_script(v, src, ctx, c, acc), ctx.language),
{
    let script = node_text(src, v[c]);
    if script.len() != 0 {
        if let Some(t2) = parsed_tree(Language::TypeScript, script) {
            lemma_js_fns_language(t2, encode_utf8(script), ctx, 0, Seq::empty(), Seq::empty());
            let fs = js_extract(t2, encode_utf8(script), ctx).functions;
            let moved = shift_functions(fs, v[c].start_row);
            assert forall|j: int| 0 <= j < (acc + moved).len() implies (#[trigger] (acc + moved)[j]).language
                == ctx.language by {
                if j >= acc.len() {
                    assert(fs[j - acc.len()].language == ctx.language);
                }
            }
        }
    }
}

/// The functions of the scripts of a script element carry the file's
/// language.
pub proof fn lemma_sv_script_texts_language(v: Seq<SyntaxNodeV>, src: Seq<u8>, ctx: ParseContextV, i: int, k: int,
    acc: Seq<FunctionArtifactV>)
    requires
        all_of_language(acc, ctx.language),
    ensures
        all_of_language(sv_script_texts(v, src, ctx, i, k, acc), ctx.language),
    decreases named_kids(v, i).len() - k,
{
    if 0 <= k < named_kids(v, i).len() {
        let c = named_kids(v, i)[k];
        if c < v.len() && v[c as int].kind == "raw_text"@ {
            lemma_sv_raw_script_language(v, src, ctx, c as int, acc);
        }
        let next = if c < v.len() && v[c as int].kind == "raw_text"@ { sv_raw_script(v, src, ctx, c as int, acc) } else { acc };
        lemma_sv_script_texts_language(v, src, ctx, i, k + 1, next);
    }
}

/// The functions of the script elements from node `i` on carry the file's
/// language.
pub proof fn lemma_sv_scripts_language(v: Seq<SyntaxNodeV>, src: Seq<u8>, ctx: ParseContextV, i: int,
    acc: Seq<FunctionArtifactV>)
    requires
        all_of_language(acc, ctx.language),
    ensures
        all_of_language(sv_scripts(v, src, ctx, i, acc), ctx.language),
    decreases v.len() - i, 1nat, 0int,
{
    if 0 <= i < v.len() {
        if v[i].kind == "script_element"@ {
            lemma_sv_script_texts_language(v, src, ctx, i, 0, acc);
        } else {
            lemma_sv_scripts_named_language(v, src, ctx, i, 0, acc);
        }
    }
}

pub proof fn lemma_sv_scripts_named_language(v: Seq<SyntaxNodeV>, src: Seq<u8>, ctx: ParseContextV, i: int, k: int,
    acc: Seq<FunctionArtifactV>)
    requires
        all_of_language(acc, ctx.language),
    ensures
        all_of_language(sv_scripts_named(v, src, ctx, i, k, acc), ctx.language),
    decreases v.len() - i, 0nat, named_kids(v, i).len() - k,
{
    if 0 <= i < v.len() && 0 <= k < named_kids(v, i).len() {
        let c = named_kids(v, i)[k];
        if i < c < v.len() {
            lemma_sv_scripts_language(v, src, ctx, c as int, acc);
        }
        let next = if i < c < v.len() { sv_scripts(v, src, ctx, c as int, acc) } else { acc };
        lemma_sv_scripts_named_language(v, src, ctx, i, k + 1, next);
    }
}

/// The functions of a Svelte file carry its language.
pub proof fn lemma_sv_extract_language(v: Seq<SyntaxNodeV>, src: Seq<u8>, ctx: ParseContextV)
    ensures
        all_of_language(sv_extract(v, src, ctx).functions, ctx.language),
{
    lemma_sv_scripts_language(v, src, ctx, 0, Seq::empty());
}

/// The functions of a Svelte file: those of its scripts, then its template.
pub open spec fn sv_extract(v: Seq<SyntaxNodeV>, src: Seq<u8>, ctx: ParseContextV) -> FileArtifactV {
    let scripts = sv_scripts(v, src, ctx, 0, Seq::empty());
    FileArtifactV {
        source_hash: Seq::empty(),
        functions: match sv_template_artifact(v, src, ctx) {
            Some(f) => scripts.push(f),
            None => scripts,
        },
    }
}

/// A template expression that is a bare name.
pub fn simple_template_reference(expression: &str) -> (res: Option<String>)
    ensures
        opt_text_view(res) == simple_template_reference_spec(expression@),
{
    let t = trim(expression);
    let chars = chars_of(t.as_str());
    let n = chars.len();
    if n == 0 {
        return None;
    }
    let mut i: usize = 0;
    while i < n
        invariant
            i <= n == t@.len(),
            chars@ == t@,
            t@ == trimmed(expression@),
            forall|k: int| 0 <= k < i ==> t@[k] != '(' && t@[k] != '=' && t@[k] != ' ',
        decreases n - i,
    {
        if chars[i] == '(' || chars[i] == '=' || chars[i] == ' ' {
            assert(t@[i as int] == chars[i as int]);
            if chars[i] == '(' {
                assert(t@.contains('('));
            } else if chars[i] == '=' {
                assert(t@.contains('='));
            } else {
                assert(t@.contains(' '));
            }
            return None;
        }
        i = i + 1;
    }
    assert(!t@.contains('(') && !t@.contains('=') && !t@.contains(' '));
    let mut a: usize = 0;
    assert(t@.subrange(0, n as int) =~= t@);
    while a < n && (chars[a] == '{' || chars[a] == '}' || chars[a] == ';')
        invariant
            a <= n == t@.len(),
            chars@ == t@,
            trim_start_braces(t@) == trim_start_braces(t@.subrange(a as int, n as int)),
        decreases n - a,
    {
        assert(t@.subrange(a as int, n as int).drop_first() =~= t@.subrange(a + 1, n as int));
        a = a + 1;
    }
    let mut b: usize = n;
    while b > a && (chars[b - 1] == '{' || chars[b - 1] == '}' || chars[b - 1] == ';')
        invariant
            a <= b <= n == t@.len(),
            chars@ == t@,
            trim_end_braces(t@.subrange(a as int, n as int)) == trim_end_braces(t@.subrange(a as int, b as int)),
        decreases b - a,
    {
        assert(t@.subrange(a as int, b as int).drop_last() =~= t@.subrange(a as int, b - 1));
        b = b - 1;
    }
    if b > a {
        Some(string_from_range(chars.as_slice(), a, b))
    } else {
        None
    }
}

/// Whether two call sites are equal.
fn same_call(a: &CallSite, b: &CallSite) -> (res: bool)
    ensures
        res == (a@ == b@),
{
    if !str_eq(a.callee_name.as_str(), b.callee_name.as_str()) || a.conditions.len() != b.conditions.len() {
        proof {
            if a@ == b@ {
                assert(a@.conditions.len() == b@.conditions.len());
            }
        }
        return false;
    }
    let mut i: usize = 0;
    while i < a.conditions.len()
        invariant
            i <= a.conditions@.len() == b.conditions@.len(),
            a.callee_name@ == b.callee_name@,
            forall|k: int| 0 <= k < i ==> a.conditions@[k]@ == b.conditions@[k]@,
        decreases a.conditions@.len() - i,
    {
        if !str_eq(a.conditions[i].as_str(), b.conditions[i].as_str()) {
            proof {
                if a@ == b@ {
                    assert(a@.conditions[i as int] == b@.conditions[i as int]);
                }
            }
            return false;
        }
        i = i + 1;
    }
    assert(a@.conditions =~= b@.conditions);
    true
}

/// Adds a call site unless it is there already.
fn add_call_unique(sites: &mut Vec<CallSite>, site: CallSite)
    ensures
        call_sites_view(final(sites)@) == (if call_sites_view(old(sites)@).contains(site@) {
            call_sites_view(old(sites)@)
        } else {
            call_sites_view(old(sites)@).push(site@)
        }),
{
    let ghost sv = call_sites_view(sites@);
    let mut i: usize = 0;
    while i < sites.len()
        invariant
            i <= sites@.len(),
            sv == call_sites_view(sites@),
            forall|k: int| 0 <= k < i ==> sv[k] != site@,
        decreases sites@.len() - i,
    {
        if same_call(&sites[i], &site) {
            assert(sv[i as int] == site@);
            return;
        }
        i = i + 1;
    }
    proof {
        lemma_call_sites_push(sites@, site);
    }
    sites.push(site);
}

/// Adds a reference site unless it is there already.
fn add_ref_unique(sites: &mut Vec<ReferenceSite>, site: ReferenceSite)
    ensures
        ref_sites_view(final(sites)@) == (if ref_sites_view(old(sites)@).contains(site@) {
            ref_sites_view(old(sites)@)
        } else {
            ref_sites_view(old(sites)@).push(site@)
        }),
{
    let ghost sv = ref_sites_view(sites@);
    let mut i: usize = 0;
    while i < sites.len()
        invariant
            i <= sites@.len(),
            sv == ref_sites_view(sites@),
            forall|k: int| 0 <= k < i ==> sv[k] != site@,
        decreases sites@.len() - i,
    {
        let r = &sites[i];
        let same = str_eq(r.target_name.as_str(), site.target_name.as_str()) && opt_str_eq(&r.context, &site.context);
        assert(r.kind == site.kind);
        if same {
            assert(r@ =~= site@);
            assert(sv[i as int] == site@);
            return;
        }
        proof {
            if r@ == site@ {
                assert(r@.target_name == site@.target_name);
                assert(r@.context == site@.context);
            }
        }
        i = i + 1;
    }
    proof {
        lemma_ref_sites_push(sites@, site);
    }
    sites.push(site);
}

/// What the walk over the template gathers.
pub struct TemplateState {
    pub calls: Vec<CallSite>,
    pub refs: Vec<ReferenceSite>,
    pub first: Option<usize>,
    pub last: usize,
}

pub open spec fn template_state_view(st: &TemplateState) -> TemplateStateV {
    (call_sites_view(st.calls@), ref_sites_view(st.refs@), st.first, st.last)
}

/// Adds the calls and references of a template expression.
fn template_expr(ctx: &ParseContext, e: &str, st: &mut TemplateState)
    ensures
        (call_sites_view(final(st).calls@), ref_sites_view(final(st).refs@))
            == template_expression(ctx@, e@, (call_sites_view(old(st).calls@), ref_sites_view(old(st).refs@))),
        final(st).first == old(st).first,
        final(st).last == old(st).last,
{
    let head = concat("function __tracegrep_template__() { ", e);
    let wrapped = concat(head.as_str(), "; }");
    let tree = match parse_tree(Language::TypeScript, wrapped.as_str()) {
        Some(tree) => tree,
        None => {
            return;
        },
    };
    let file = js_file(&tree, wrapped.as_str().as_bytes(), ctx);
    let ghost fs = file@.functions;
    assert(wrapped@ == wrapped_expression(e@));
    assert(parsed_tree(Language::TypeScript, wrapped_expression(e@)) == Some(tree@));
    assert(fs == js_extract(tree@, encode_utf8(wrapped_expression(e@)), ctx@).functions);
    let ghost cv0 = call_sites_view(st.calls@);
    let ghost rv0 = ref_sites_view(st.refs@);
    let ghost fallback = match simple_template_reference_spec(e@) {
        Some(target) => (cv0, add_refs_unique(rv0, seq![ReferenceSiteV {
            target_name: target,
            kind: GraphReferenceKind::Argument,
            context: Some("used in template"@),
        }])),
        None => (cv0, rv0),
    };
    assert(template_expression(ctx@, e@, (cv0, rv0)) == match first_named(fs, template_fn_name()) {
        Some(f) => (add_calls_unique(cv0, f.call_sites), add_refs_unique(rv0, f.reference_sites)),
        None => fallback,
    });
    let mut m: usize = 0;
    assert(fs.skip(0) =~= fs);
    while m < file.functions.len()
        invariant
            m <= file.functions@.len(),
            fs == file@.functions,
            st.calls@ == old(st).calls@,
            st.refs@ == old(st).refs@,
            st.first == old(st).first,
            st.last == old(st).last,
            cv0 == call_sites_view(old(st).calls@),
            rv0 == ref_sites_view(old(st).refs@),
            template_expression(ctx@, e@, (cv0, rv0)) == match first_named(fs, template_fn_name()) {
                Some(f) => (add_calls_unique(cv0, f.call_sites), add_refs_unique(rv0, f.reference_sites)),
                None => fallback,
            },
            fallback == match simple_template_reference_spec(e@) {
                Some(target) => (cv0, add_refs_unique(rv0, seq![ReferenceSiteV {
                    target_name: target,
                    kind: GraphReferenceKind::Argument,
                    context: Some("used in template"@),
                }])),
                None => (cv0, rv0),
            },
            first_named(fs, template_fn_name()) == first_named(fs.skip(m as int), template_fn_name()),
        decreases file.functions@.len() - m,
    {
        assert(fs.skip(m as int)[0] == file.functions@[m as int]@);
        assert(fs.skip(m as int).drop_first() =~= fs.skip(m + 1));
        if str_eq(file.functions[m].name.as_str(), "__tracegrep_template__") {
            let f = &file.functions[m];
            assert(first_named(fs.skip(m as int), template_fn_name()) == Some(f@));
            assert(template_expression(ctx@, e@, (cv0, rv0))
                == (add_calls_unique(cv0, f@.call_sites), add_refs_unique(rv0, f@.reference_sites)));
            let ghost cv = call_sites_view(st.calls@);
            let ghost rv = ref_sites_view(st.refs@);
            let mut j: usize = 0;
            while j < f.call_sites.len()
                invariant
                    j <= f.call_sites@.len(),
                    call_sites_view(st.calls@) == add_calls_unique(cv, f@.call_sites.take(j as int)),
                    ref_sites_view(st.refs@) == rv,
                    st.first == old(st).first,
                    st.last == old(st).last,
                decreases f.call_sites@.len() - j,
            {
                assert(f@.call_sites.take(j + 1).drop_last() =~= f@.call_sites.take(j as int));
                assert(f@.call_sites.take(j + 1).last() == f.call_sites@[j as int]@);
                let c = CallSite {
                    callee_name: concat(f.call_sites[j].callee_name.as_str(), ""),
                    conditions: clone_strings(&f.call_sites[j].conditions),
                };
                proof {
                    reveal_strlit("");
                    assert(c@ =~= f.call_sites@[j as int]@);
                }
                add_call_unique(&mut st.calls, c);
                j = j + 1;
            }
            assert(f@.call_sites.take(f@.call_sites.len() as int) =~= f@.call_sites);
            let mut j: usize = 0;
            while j < f.reference_sites.len()
                invariant
                    j <= f.reference_sites@.len(),
                    call_sites_view(st.calls@) == add_calls_unique(cv, f@.call_sites),
                    ref_sites_view(st.refs@) == add_refs_unique(rv, f@.reference_sites.take(j as int)),
                    st.first == old(st).first,
                    st.last == old(st).last,
                decreases f.reference_sites@.len() - j,
            {
                assert(f@.reference_sites.take(j + 1).drop_last() =~= f@.reference_sites.take(j as int));
                assert(f@.reference_sites.take(j + 1).last() == f.reference_sites@[j as int]@);
                let context = match &f.reference_sites[j].context {
                    Some(c) => Some(concat(c.as_str(), "")),
                    None => None,
                };
                let r = ReferenceSite {
                    target_name: concat(f.reference_sites[j].target_name.as_str(), ""),
                    kind: f.reference_sites[j].kind,
                    context,
                };
                proof {
                    reveal_strlit("");
                    assert(r@ =~= f.reference_sites@[j as int]@);
                }
                add_ref_unique(&mut st.refs, r);
                j = j + 1;
            }
            assert(f@.reference_sites.take(f@.reference_sites.len() as int) =~= f@.reference_sites);
            return;
        }
        m = m + 1;
    }
    assert(fs.skip(m as int) =~= Seq::<FunctionArtifactV>::empty());
    assert(first_named(fs, template_fn_name()) is None);
    match simple_template_reference(e) {
        Some(target) => {
            let r = ReferenceSite {
                target_name: target,
                kind: GraphReferenceKind::Argument,
                context: Some(concat("used in template", "")),
            };
            let ghost x = r@;
            proof {
                reveal_strlit("");
                let single = seq![x];
                assert(single.drop_last() =~= Seq::<ReferenceSiteV>::empty());
                assert(single.last() == x);
                assert(add_refs_unique(rv0, single.drop_last()) == rv0);
                assert(add_refs_unique(rv0, single) == if rv0.contains(x) { rv0 } else { rv0.push(x) });
                assert(x =~= (ReferenceSiteV {
                    target_name: simple_template_reference_spec(e@)->0,
                    kind: GraphReferenceKind::Argument,
                    context: Some("used in template"@),
                }));
                assert(fallback.1 == add_refs_unique(rv0, single));
            }
            add_ref_unique(&mut st.refs, r);
        },
        None => {},
    }
}

/// Adds the template expressions from node `i` on.
fn template(t: &SyntaxTree, src: &[u8], ctx: &ParseContext, i: usize, st: &mut TemplateState)
    requires
        i < t@.len(),
    ensures
        template_state_view(final(st)) == sv_template(t@, src@, ctx@, i as int, template_state_view(old(st))),
    decreases t@.len() - i, 1nat, 0int,
{
    let node = t.node(i);
    let kind = node.kind.as_str();
    if str_eq(kind, "script_element") || str_eq(kind, "style_element") {
        return;
    }
    if str_eq(kind, "svelte_raw_text") {
        let e = node_text_of(src, node);
        if e.as_str().unicode_len() > 0 {
            let line = row_line(node.start_row);
            st.first = match st.first {
                Some(f) => Some(if f <= line { f } else { line }),
                None => Some(line),
            };
            let end = row_line(node.end_row);
            if st.last < end {
                st.last = end;
            }
            template_expr(ctx, e.as_str(), st);
        }
    }
    let _ = t.len();
    proof {
        lemma_named_kids(t@, i as int);
    }
    let ks = t.named_children(i);
    let mut k: usize = 0;
    while k < ks.len()
        invariant
            i < t@.len(),
            ks@ == named_kids(t@, i as int),
            forall|m: int| 0 <= m < ks@.len() ==> i < #[trigger] ks@[m] < t@.len(),
            k <= ks@.len(),
            sv_template(t@, src@, ctx@, i as int, template_state_view(old(st)))
                == sv_template_named(t@, src@, ctx@, i as int, k as int, template_state_view(st)),
        decreases ks@.len() - k,
    {
        template(t, src, ctx, ks[k], st);
        k = k + 1;
    }
}

/// The functions of a Svelte file, with their calls and references.
pub fn extract(t: &SyntaxTree, src: &[u8], ctx: &ParseContext) -> (res: FileArtifact)
    ensures
        res@ == sv_extract(t@, src@, ctx@),
{
    let mut functions: Vec<FunctionArtifact> = Vec::new();
    assert(functions_view(functions@) =~= Seq::<FunctionArtifactV>::empty());
    let mut st = TemplateState { calls: Vec::new(), refs: Vec::new(), first: None, last: 0 };
    assert(template_state_view(&st) =~= (Seq::<CallSiteV>::empty(), Seq::<ReferenceSiteV>::empty(), None::<usize>, 0usize));
    if t.len() > 0 {
        scripts(t, src, ctx, 0, &mut functions);
        template(t, src, ctx, 0, &mut st);
    }
    let ghost scripts_v = functions_view(functions@);
    if let Some(line) = st.first {
        if st.calls.len() > 0 || st.refs.len() > 0 {
            let no_scopes: Vec<String> = Vec::new();
            assert(strings_view(no_scopes@) =~= Seq::<Seq<char>>::empty());
            let qualified_name = ctx.qualified_name(&no_scopes, "template");
            let f = FunctionArtifact {
                name: concat("template", ""),
                qualified_name,
                language: ctx.language,
                is_test: ctx.file_is_test,
                line,
                end_line: if st.last >= line { st.last } else { line },
                call_sites: st.calls,
                reference_sites: st.refs,
            };
            proof {
                reveal_strlit("");
                lemma_functions_push(functions@, f);
            }
            functions.push(f);
        }
    }
    let res = FileArtifact { source_hash: empty_string(), functions };
    assert(res@ =~= sv_extract(t@, src@, ctx@));
    res
}

} // verus!
