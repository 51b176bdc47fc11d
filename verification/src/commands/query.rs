use vstd::prelude::*;
use vstd::utf8::{valid_utf8, decode_utf8, encode_utf8, is_char_boundary};
use vstd::slice::slice_subrange;
use crate::text::utf8_text;
use crate::analysis::codepaths::types::{opt_string_view, strings_view, clone_strings, clone_opt_string, CallGraphV};
use crate::query_data::{QueryCachePayload, edges_into, references_to, lemma_references_to_bounded, lookup_spec,
    lemma_index_sorted, law_lookup_encloses,
    lemma_edges_into_len, lemma_references_to_len};
use crate::sdk::graph::{Step, walk_ok, graph_joined, caller_walk};
use crate::sorting::{EntryKey, EntryKeyV, sorted_positions, sort_positions, placed_before};
use crate::text::{str_starts_with, concat, owned, decimal, decimal_string, joined, join, push_str, empty_string, seq_starts_with,
    strip_prefix, str_eq, parse_usize, parsed_usize};

verus! {

// ---------------------------------------------------------------------
// Colors
// ---------------------------------------------------------------------

/// When output is colored: always, never, or when standard output is a
/// terminal.
#[derive(Debug, Clone, Copy, PartialEq, Eq, Structural)]
pub enum ColorChoice {
    Auto,
    Always,
    Never,
}

/// The choice a `--color` value names.
pub open spec fn color_choice_of(value: Seq<char>) -> ColorChoice {
    if value == "always"@ || value == "ansi"@ {
        ColorChoice::Always
    } else if value == "never"@ {
        ColorChoice::Never
    } else {
        ColorChoice::Auto
    }
}

/// The color choice of ripgrep's arguments from position `i` on, the
/// last `--color` winning; `choice` stands until one is found.
pub open spec fn color_scan(args: Seq<Seq<char>>, i: int, choice: ColorChoice) -> ColorChoice
    decreases args.len() - i,
{
    if i < 0 || i >= args.len() {
        choice
    } else if seq_starts_with(args[i], "--color="@) {
        color_scan(args, i + 1, color_choice_of(args[i].skip(8)))
    } else if args[i] == "--color"@ {
        if i + 1 < args.len() {
            color_scan(args, i + 2, color_choice_of(args[i + 1]))
        } else {
            choice
        }
    } else {
        color_scan(args, i + 1, choice)
    }
}

pub open spec fn strings_of(v: Seq<String>) -> Seq<Seq<char>> {
    v.map_values(|s: String| s@)
}

impl ColorChoice {
    /// The choice that ripgrep's `--color` arguments make; the last one wins.
    pub fn from_rg_args(rg_args: &Vec<String>) -> (res: Self)
        ensures
            res == color_scan(strings_of(rg_args@), 0, ColorChoice::Auto),
    {
        let ghost args = strings_of(rg_args@);
        let mut choice = ColorChoice::Auto;
        let mut i: usize = 0;
        while i < rg_args.len()
            invariant
                i <= rg_args@.len(),
                args == strings_of(rg_args@),
                color_scan(args, i as int, choice) == color_scan(args, 0, ColorChoice::Auto),
            decreases rg_args@.len() - i,
        {
            let arg = rg_args[i].as_str();
            assert(args[i as int] == arg@);
            proof {
                reveal_strlit("--color=");
            }
            match strip_prefix(arg, "--color=") {
                Some(value) => {
                    choice = Self::parse(value.as_str());
                    i = i + 1;
                },
                None => {
                    if str_eq(arg, "--color") {
                        if i + 1 < rg_args.len() {
                            assert(args[i + 1] == rg_args@[i + 1]@);
                            choice = Self::parse(rg_args[i + 1].as_str());
                            i = i + 2;
                        } else {
                            return choice;
                        }
                    } else {
                        i = i + 1;
                    }
                },
            }
        }
        choice
    }

    /// The choice a `--color` value names: `always` and `ansi` color,
    /// `never` does not, anything else leaves it to the terminal.
    pub fn parse(value: &str) -> (res: Self)
        ensures
            res == color_choice_of(value@),
    {
        if str_eq(value, "always") || str_eq(value, "ansi") {
            ColorChoice::Always
        } else if str_eq(value, "never") {
            ColorChoice::Never
        } else {
            ColorChoice::Auto
        }
    }

    /// Whether to color, given whether standard output is a terminal.
    pub fn enabled(self, stdout_is_terminal: bool) -> (res: bool)
        ensures
            res == match self {
                ColorChoice::Auto => stdout_is_terminal,
                ColorChoice::Always => true,
                ColorChoice::Never => false,
            },
    {
        match self {
            ColorChoice::Auto => stdout_is_terminal,
            ColorChoice::Always => true,
            ColorChoice::Never => false,
        }
    }
}

pub open spec fn reset_style() -> Seq<char> { "\x1b[0m"@ }
pub open spec fn dim_style() -> Seq<char> { "\x1b[0m\x1b[2m"@ }
pub open spec fn path_style() -> Seq<char> { "\x1b[0m\x1b[35m"@ }
pub open spec fn dim_path_style() -> Seq<char> { "\x1b[0m\x1b[2m\x1b[35m"@ }
pub open spec fn line_style() -> Seq<char> { "\x1b[0m\x1b[32m"@ }
pub open spec fn dim_line_style() -> Seq<char> { "\x1b[0m\x1b[2m\x1b[32m"@ }
pub open spec fn match_style() -> Seq<char> { "\x1b[0m\x1b[1m\x1b[31m"@ }

/// `value` in `style`, when coloring.
pub open spec fn painted(enabled: bool, value: Seq<char>, style: Seq<char>) -> Seq<char> {
    if enabled { style + value + reset_style() } else { value }
}

/// Terminal styling in ripgrep's colors.
pub struct Colors {
    pub enabled: bool,
}

impl Colors {
    /// Colors as the choice and the terminal decide.
    pub fn new(choice: ColorChoice, stdout_is_terminal: bool) -> (res: Self)
        ensures
            res.enabled == match choice {
                ColorChoice::Auto => stdout_is_terminal,
                ColorChoice::Always => true,
                ColorChoice::Never => false,
            },
    {
        Colors { enabled: choice.enabled(stdout_is_terminal) }
    }

    /// `value` in `style`, when coloring.
    pub fn paint(&self, value: &str, style: &str) -> (res: String)
        ensures
            res@ == painted(self.enabled, value@, style@),
    {
        if self.enabled {
            let mut out = concat(style, value);
            push_str(&mut out, "\x1b[0m");
            out
        } else {
            owned(value)
        }
    }

    pub fn path(&self, value: &str) -> (res: String)
        ensures
            res@ == painted(self.enabled, value@, path_style()),
    {
        self.paint(value, "\x1b[0m\x1b[35m")
    }

    pub fn line(&self, value: usize) -> (res: String)
        ensures
            res@ == painted(self.enabled, decimal(value as nat), line_style()),
    {
        let text = decimal_string(value);
        self.paint(text.as_str(), "\x1b[0m\x1b[32m")
    }

    pub fn dim(&self, value: &str) -> (res: String)
        ensures
            res@ == painted(self.enabled, value@, dim_style()),
    {
        self.paint(value, "\x1b[0m\x1b[2m")
    }

    pub fn dim_path(&self, value: &str) -> (res: String)
        ensures
            res@ == painted(self.enabled, value@, dim_path_style()),
    {
        self.paint(value, "\x1b[0m\x1b[2m\x1b[35m")
    }

    pub fn dim_line(&self, value: usize) -> (res: String)
        ensures
            res@ == painted(self.enabled, decimal(value as nat), dim_line_style()),
    {
        let text = decimal_string(value);
        self.paint(text.as_str(), "\x1b[0m\x1b[2m\x1b[32m")
    }

    /// `file:function:line`, the file in the path color and `line` the
    /// line the function is defined on.
    pub fn format_location(&self, file: &str, function: &str, line: usize) -> (res: String)
        ensures
            res@ == painted(self.enabled, file@, path_style()) + ":"@ + function@ + ":"@ + decimal(line as nat),
    {
        let mut out = self.path(file);
        push_str(&mut out, ":");
        push_str(&mut out, function);
        push_str(&mut out, ":");
        let number = decimal_string(line);
        push_str(&mut out, number.as_str());
        out
    }
}

// ---------------------------------------------------------------------
// Context around a match
// ---------------------------------------------------------------------

/// A caller of a matched function, as a query reports it.
pub struct CallerInfo {
    pub file: String,
    pub function: String,
    pub is_test: bool,
    pub line: usize,
    pub conditions: Vec<String>,
    /// How many call levels away from the matched function.
    pub depth: usize,
    /// How many calls and references point at the caller itself.
    pub heat: usize,
}

#[verifier::ext_equal]
pub struct CallerInfoV {
    pub file: Seq<char>,
    pub function: Seq<char>,
    pub is_test: bool,
    pub line: usize,
    pub conditions: Seq<Seq<char>>,
    pub depth: usize,
    pub heat: usize,
}

impl View for CallerInfo {
    type V = CallerInfoV;

    open spec fn view(&self) -> CallerInfoV {
        CallerInfoV {
            file: self.file@,
            function: self.function@,
            is_test: self.is_test,
            line: self.line,
            conditions: strings_view(self.conditions@),
            depth: self.depth,
            heat: self.heat,
        }
    }
}

/// A function that references a matched function, as a query reports it.
pub struct ReferenceInfo {
    pub file: String,
    pub function: String,
    pub is_test: bool,
    pub line: usize,
    pub context: Option<String>,
    /// How many calls and references point at the referencing function.
    pub heat: usize,
}

#[verifier::ext_equal]
pub struct ReferenceInfoV {
    pub file: Seq<char>,
    pub function: Seq<char>,
    pub is_test: bool,
    pub line: usize,
    pub context: Option<Seq<char>>,
    pub heat: usize,
}

impl View for ReferenceInfo {
    type V = ReferenceInfoV;

    open spec fn view(&self) -> ReferenceInfoV {
        ReferenceInfoV {
            file: self.file@,
            function: self.function@,
            is_test: self.is_test,
            line: self.line,
            context: opt_string_view(self.context),
            heat: self.heat,
        }
    }
}

/// `file:function:line` of a caller, dimmed, with the conditions of its
/// call when there are any.
pub open spec fn caller_text(enabled: bool, c: CallerInfoV) -> Seq<char> {
    painted(enabled, c.file, dim_path_style()) + ":"@ + painted(enabled, c.function, dim_style()) + ":"@
        + painted(enabled, decimal(c.line as nat), dim_line_style())
        + if c.conditions.len() > 0 {
            painted(enabled, "  (when "@, dim_style()) + painted(enabled, joined(c.conditions, " && "@), dim_style())
                + painted(enabled, ")"@, dim_style())
        } else {
            Seq::empty()
        }
}

/// `file:function:line` of a referencing function, dimmed, with the
/// context of the reference when there is one.
pub open spec fn reference_text(enabled: bool, r: ReferenceInfoV) -> Seq<char> {
    painted(enabled, r.file, dim_path_style()) + ":"@ + painted(enabled, r.function, dim_style()) + ":"@
        + painted(enabled, decimal(r.line as nat), dim_line_style())
        + match r.context {
            Some(context) => painted(enabled, "  ("@, dim_style()) + painted(enabled, context, dim_style())
                + painted(enabled, ")"@, dim_style()),
            None => Seq::empty(),
        }
}

impl Colors {
    pub fn format_caller(&self, caller: &CallerInfo) -> (res: String)
        ensures
            res@ == caller_text(self.enabled, caller@),
    {
        let mut out = self.dim_path(caller.file.as_str());
        push_str(&mut out, ":");
        let function = self.dim(caller.function.as_str());
        push_str(&mut out, function.as_str());
        push_str(&mut out, ":");
        let line = self.dim_line(caller.line);
        push_str(&mut out, line.as_str());
        if caller.conditions.len() > 0 {
            let open = self.dim("  (when ");
            push_str(&mut out, open.as_str());
            let conditions = join(&caller.conditions, " && ");
            let conditions = self.dim(conditions.as_str());
            push_str(&mut out, conditions.as_str());
            let close = self.dim(")");
            push_str(&mut out, close.as_str());
        }
        assert(out@ =~= caller_text(self.enabled, caller@));
        out
    }

    pub fn format_reference(&self, reference: &ReferenceInfo) -> (res: String)
        ensures
            res@ == reference_text(self.enabled, reference@),
    {
        let mut out = self.dim_path(reference.file.as_str());
        push_str(&mut out, ":");
        let function = self.dim(reference.function.as_str());
        push_str(&mut out, function.as_str());
        push_str(&mut out, ":");
        let line = self.dim_line(reference.line);
        push_str(&mut out, line.as_str());
        match &reference.context {
            Some(context) => {
                let open = self.dim("  (");
                push_str(&mut out, open.as_str());
                let context = self.dim(context.as_str());
                push_str(&mut out, context.as_str());
                let close = self.dim(")");
                push_str(&mut out, close.as_str());
            },
            None => {},
        }
        assert(out@ =~= reference_text(self.enabled, reference@));
        out
    }
}

/// How many lines of context ripgrep shows before and after a match.
#[derive(Debug, Clone, Copy, PartialEq, Eq, Structural)]
pub struct ContextSettings {
    pub before: usize,
    pub after: usize,
}

/// Whether an argument takes its count from the next argument.
pub open spec fn is_context_flag(arg: Seq<char>) -> bool {
    arg == "-C"@ || arg == "-A"@ || arg == "-B"@
}

/// The count that the argument at `i` gives, if any.
pub open spec fn context_value(args: Seq<Seq<char>>, i: int) -> Option<usize> {
    let arg = args[i];
    if is_context_flag(arg) {
        if i + 1 < args.len() { parsed_usize(args[i + 1]) } else { None }
    } else if seq_starts_with(arg, "--context="@) {
        parsed_usize(arg.skip(10))
    } else if seq_starts_with(arg, "--after-context="@) {
        parsed_usize(arg.skip(16))
    } else if seq_starts_with(arg, "--before-context="@) {
        parsed_usize(arg.skip(17))
    } else if seq_starts_with(arg, "-C"@) || seq_starts_with(arg, "-A"@) || seq_starts_with(arg, "-B"@) {
        if arg.len() > 2 { parsed_usize(arg.skip(2)) } else { None }
    } else {
        None
    }
}

/// The settings after the argument `arg` gave the count `value`.
pub open spec fn context_apply(arg: Seq<char>, value: Option<usize>, s: ContextSettings) -> ContextSettings {
    match value {
        Some(v) => if seq_starts_with(arg, "-C"@) || seq_starts_with(arg, "--context="@) {
            ContextSettings { before: v, after: v }
        } else if seq_starts_with(arg, "-A"@) || seq_starts_with(arg, "--after-context="@) {
            ContextSettings { before: s.before, after: v }
        } else if seq_starts_with(arg, "-B"@) || seq_starts_with(arg, "--before-context="@) {
            ContextSettings { before: v, after: s.after }
        } else {
            s
        },
        None => s,
    }
}

/// The context settings of ripgrep's arguments from position `i` on.
pub open spec fn context_scan(args: Seq<Seq<char>>, i: int, s: ContextSettings) -> ContextSettings
    decreases args.len() + 1 - i,
{
    if i < 0 || i >= args.len() {
        s
    } else {
        let next = if is_context_flag(args[i]) { i + 2 } else { i + 1 };
        context_scan(args, next, context_apply(args[i], context_value(args, i), s))
    }
}

impl ContextSettings {
    /// The context that ripgrep's `-A`, `-B`, `-C` and long forms ask for.
    pub fn from_rg_args(rg_args: &Vec<String>) -> (res: Self)
        ensures
            res == context_scan(strings_of(rg_args@), 0, ContextSettings { before: 0, after: 0 }),
    {
        let ghost args = strings_of(rg_args@);
        let mut settings = ContextSettings { before: 0, after: 0 };
        let mut index: usize = 0;
        while index < rg_args.len()
            invariant
                index <= rg_args@.len(),
                args == strings_of(rg_args@),
                context_scan(args, index as int, settings)
                    == context_scan(args, 0, ContextSettings { before: 0, after: 0 }),
            decreases rg_args@.len() - index,
        {
            proof {
                reveal_strlit("--context=");
                reveal_strlit("--after-context=");
                reveal_strlit("--before-context=");
                reveal_strlit("-C");
                reveal_strlit("-A");
                reveal_strlit("-B");
            }
            let arg = rg_args[index].as_str();
            assert(args[index as int] == arg@);
            let flag = str_eq(arg, "-C") || str_eq(arg, "-A") || str_eq(arg, "-B");
            let value: Option<usize> = if flag {
                if index + 1 < rg_args.len() {
                    assert(args[index + 1] == rg_args@[index + 1]@);
                    parse_usize(rg_args[index + 1].as_str())
                } else {
                    None
                }
            } else {
                match strip_prefix(arg, "--context=") {
                    Some(rest) => parse_usize(rest.as_str()),
                    None => match strip_prefix(arg, "--after-context=") {
                        Some(rest) => parse_usize(rest.as_str()),
                        None => match strip_prefix(arg, "--before-context=") {
                            Some(rest) => parse_usize(rest.as_str()),
                            None => {
                                let short = match strip_prefix(arg, "-C") {
                                    Some(rest) => Some(rest),
                                    None => match strip_prefix(arg, "-A") {
                                        Some(rest) => Some(rest),
                                        None => strip_prefix(arg, "-B"),
                                    },
                                };
                                match short {
                                    Some(rest) => if !rest.as_str().is_empty() { parse_usize(rest.as_str()) } else { None },
                                    None => None,
                                }
                            },
                        },
                    },
                }
            };
            assert(value == context_value(args, index as int));
            let ghost before_apply = settings;
            match value {
                Some(v) => {
                    if str_starts_with(arg, "-C") || str_starts_with(arg, "--context=") {
                        settings.before = v;
                        settings.after = v;
                    } else if str_starts_with(arg, "-A") || str_starts_with(arg, "--after-context=") {
                        settings.after = v;
                    } else if str_starts_with(arg, "-B") || str_starts_with(arg, "--before-context=") {
                        settings.before = v;
                    }
                },
                None => {},
            }
            assert(settings == context_apply(args[index as int], value, before_apply));
            assert(flag == is_context_flag(args[index as int]));
            let ghost old_index = index as int;
            let ghost next = if flag { old_index + 2 } else { old_index + 1 };
            assert(context_scan(args, old_index, before_apply) == context_scan(args, next, settings));
            if flag {
                if index + 1 < rg_args.len() {
                    index = index + 2;
                } else {
                    index = rg_args.len();
                }
            } else {
                index = index + 1;
            }
            assert(context_scan(args, index as int, settings) == context_scan(args, next, settings));
        }
        settings
    }
}

// ---------------------------------------------------------------------
// Callers and references of a matched function
// ---------------------------------------------------------------------

/// How many calls and references point at function `c`.
pub open spec fn heat_of(g: CallGraphV, c: int) -> nat {
    edges_into(g.edges, c, g.edges.len()).len() + references_to(g.references, c, g.references.len()).len()
}

/// The caller that a step of a walk reaches, as a query reports it.
pub open spec fn caller_info_of(g: CallGraphV, s: Step) -> CallerInfoV {
    let n = g.nodes[s.caller as int];
    CallerInfoV {
        file: n.file,
        function: n.name,
        is_test: n.is_test,
        line: n.line,
        conditions: g.edges[s.edge as int].conditions,
        depth: s.depth,
        heat: heat_of(g, s.caller as int) as usize,
    }
}

/// The referencing function of reference `r`, as a query reports it.
pub open spec fn reference_info_of(g: CallGraphV, r: usize) -> ReferenceInfoV {
    let n = g.nodes[g.references[r as int].referencer as int];
    ReferenceInfoV {
        file: n.file,
        function: n.name,
        is_test: n.is_test,
        line: n.line,
        context: g.references[r as int].context,
        heat: heat_of(g, g.references[r as int].referencer as int) as usize,
    }
}

pub open spec fn caller_key(c: CallerInfoV) -> EntryKeyV {
    EntryKeyV { depth: c.depth, heat: c.heat, file: c.file, line: c.line, function: c.function }
}

pub open spec fn reference_key(r: ReferenceInfoV) -> EntryKeyV {
    EntryKeyV { depth: 0, heat: r.heat, file: r.file, line: r.line, function: r.function }
}

pub open spec fn caller_keys(g: CallGraphV, w: Seq<Step>) -> Seq<EntryKeyV> {
    w.map_values(|s: Step| caller_key(caller_info_of(g, s)))
}

pub open spec fn reference_keys(g: CallGraphV, refs: Seq<usize>) -> Seq<EntryKeyV> {
    refs.map_values(|r: usize| reference_key(reference_info_of(g, r)))
}

/// A copy of a caller.
pub fn copy_caller(c: &CallerInfo) -> (res: CallerInfo)
    ensures
        res@ == c@,
{
    CallerInfo {
        file: c.file.clone(),
        function: c.function.clone(),
        is_test: c.is_test,
        line: c.line,
        conditions: clone_strings(&c.conditions),
        depth: c.depth,
        heat: c.heat,
    }
}

/// A copy of a reference.
pub fn copy_reference(r: &ReferenceInfo) -> (res: ReferenceInfo)
    ensures
        res@ == r@,
{
    ReferenceInfo {
        file: r.file.clone(),
        function: r.function.clone(),
        is_test: r.is_test,
        line: r.line,
        context: clone_opt_string(&r.context),
        heat: r.heat,
    }
}

/// The heat of node `c`: how many calls and references point at it.
fn heat(p: &QueryCachePayload, c: usize) -> (res: usize)
    requires
        p.wf(),
        c < p.graph@.nodes.len(),
        p.graph@.edges.len() + p.graph@.references.len() <= usize::MAX,
    ensures
        res == heat_of(p.graph@, c as int),
{
    let calls = p.backward_calls[c].len();
    let refs = p.backward_references[c].len();
    proof {
        let g = p.graph@;
        lemma_edges_into_len(g.edges, c as int, g.edges.len());
        lemma_references_to_len(g.references, c as int, g.references.len());
        assert(p.backward_calls@[c as int]@ == edges_into(g.edges, c as int, g.edges.len()));
        assert(p.backward_references@[c as int]@ == references_to(g.references, c as int, g.references.len()));
    }
    calls + refs
}

/// The callers of function `node_idx` up to `depth` levels away, breadth
/// first, then ordered by least depth, most heat, file, line and name.
pub fn collect_callers(p: &QueryCachePayload, node_idx: usize, depth: usize) -> (res: Vec<CallerInfo>)
    requires
        p.wf(),
        graph_joined(p.graph@),
        node_idx < p.graph@.nodes.len(),
        p.graph@.edges.len() + p.graph@.references.len() <= usize::MAX,
    ensures
        exists|w: Seq<Step>, order: Seq<usize>| #![trigger walk_ok(p.graph@, node_idx, depth, w),
            sorted_positions(caller_keys(p.graph@, w), order)] {
            &&& walk_ok(p.graph@, node_idx, depth, w)
            &&& sorted_positions(caller_keys(p.graph@, w), order)
            &&& res@.len() == w.len()
            &&& forall|k: int| 0 <= k < res@.len() ==> (#[trigger] res@[k])@ == caller_info_of(p.graph@, w[order[k] as int])
        },
{
    let ghost g = p.graph@;
    let w = caller_walk(p, node_idx, depth);
    let mut infos: Vec<CallerInfo> = Vec::new();
    let mut keys: Vec<EntryKey> = Vec::new();
    let mut i: usize = 0;
    while i < w.len()
        invariant
            g == p.graph@,
            p.wf(),
            graph_joined(g),
            g.edges.len() + g.references.len() <= usize::MAX,
            walk_ok(g, node_idx, depth, w@),
            forall|k: int| 0 <= k < w@.len() ==> (#[trigger] w@[k]).caller < g.nodes.len(),
            i <= w@.len(),
            infos@.len() == i,
            keys@.len() == i,
            forall|k: int| 0 <= k < i ==> (#[trigger] infos@[k])@ == caller_info_of(g, w@[k]),
            forall|k: int| 0 <= k < i ==> (#[trigger] keys@[k])@ == caller_key(caller_info_of(g, w@[k])),
        decreases w@.len() - i,
    {
        let step = &w[i];
        assert(w@[i as int].edge < g.edges.len());
        let c = step.caller;
        assert(g.nodes[c as int] == p.graph.nodes@[c as int]@);
        assert(g.edges[step.edge as int] == p.graph.edges@[step.edge as int]@);
        let node = &p.graph.nodes[c];
        let edge = &p.graph.edges[step.edge];
        let h = heat(p, c);
        let info = CallerInfo {
            file: node.file.clone(),
            function: node.name.clone(),
            is_test: node.is_test,
            line: node.line,
            conditions: clone_strings(&edge.conditions),
            depth: step.depth,
            heat: h,
        };
        let key = EntryKey {
            depth: step.depth,
            heat: h,
            file: node.file.clone(),
            line: node.line,
            function: node.name.clone(),
        };
        assert(info@ == caller_info_of(g, w@[i as int]));
        infos.push(info);
        keys.push(key);
        i = i + 1;
    }
    let order = sort_positions(&keys);
    assert(keys@.map_values(|k: EntryKey| k@) =~= caller_keys(g, w@));
    let mut res: Vec<CallerInfo> = Vec::new();
    let mut k: usize = 0;
    while k < order.len()
        invariant
            sorted_positions(caller_keys(g, w@), order@),
            infos@.len() == w@.len(),
            forall|j: int| 0 <= j < infos@.len() ==> (#[trigger] infos@[j])@ == caller_info_of(g, w@[j]),
            k <= order@.len(),
            res@.len() == k,
            forall|j: int| 0 <= j < k ==> (#[trigger] res@[j])@ == caller_info_of(g, w@[order@[j] as int]),
        decreases order@.len() - k,
    {
        assert(order@.contains(order@[k as int]));
        let item = copy_caller(&infos[order[k]]);
        res.push(item);
        k = k + 1;
    }
    res
}

/// The places that reference function `node_idx`, ordered by most heat,
/// file, line and name.
pub fn collect_references(p: &QueryCachePayload, node_idx: usize) -> (res: Vec<ReferenceInfo>)
    requires
        p.wf(),
        graph_joined(p.graph@),
        node_idx < p.graph@.nodes.len(),
        p.graph@.edges.len() + p.graph@.references.len() <= usize::MAX,
    ensures
        exists|order: Seq<usize>| #![trigger sorted_positions(reference_keys(p.graph@,
            references_to(p.graph@.references, node_idx as int, p.graph@.references.len())), order)] {
            let refs = references_to(p.graph@.references, node_idx as int, p.graph@.references.len());
            &&& sorted_positions(reference_keys(p.graph@, refs), order)
            &&& res@.len() == refs.len()
            &&& forall|k: int| 0 <= k < res@.len()
                ==> (#[trigger] res@[k])@ == reference_info_of(p.graph@, refs[order[k] as int])
        },
{
    let ghost g = p.graph@;
    let refs = &p.backward_references[node_idx];
    let ghost into = references_to(g.references, node_idx as int, g.references.len());
    assert(refs@ == into);
    proof {
        lemma_references_to_bounded(g.references, node_idx as int, g.references.len());
    }
    let mut infos: Vec<ReferenceInfo> = Vec::new();
    let mut keys: Vec<EntryKey> = Vec::new();
    let mut i: usize = 0;
    while i < refs.len()
        invariant
            g == p.graph@,
            p.wf(),
            graph_joined(g),
            g.edges.len() + g.references.len() <= usize::MAX,
            refs@ == into,
            forall|k: int| 0 <= k < into.len() ==> (#[trigger] into[k]) < g.references.len(),
            i <= into.len(),
            infos@.len() == i,
            keys@.len() == i,
            forall|k: int| 0 <= k < i ==> (#[trigger] infos@[k])@ == reference_info_of(g, into[k]),
            forall|k: int| 0 <= k < i ==> (#[trigger] keys@[k])@ == reference_key(reference_info_of(g, into[k])),
        decreases into.len() - i,
    {
        let r = refs[i];
        assert(g.references[r as int] == p.graph.references@[r as int]@);
        let reference = &p.graph.references[r];
        let c = reference.referencer;
        assert(g.nodes[c as int] == p.graph.nodes@[c as int]@);
        let node = &p.graph.nodes[c];
        let h = heat(p, c);
        let info = ReferenceInfo {
            file: node.file.clone(),
            function: node.name.clone(),
            is_test: node.is_test,
            line: node.line,
            context: clone_opt_string(&reference.context),
            heat: h,
        };
        let key = EntryKey {
            depth: 0,
            heat: h,
            file: node.file.clone(),
            line: node.line,
            function: node.name.clone(),
        };
        assert(info@ == reference_info_of(g, into[i as int]));
        infos.push(info);
        keys.push(key);
        i = i + 1;
    }
    let order = sort_positions(&keys);
    assert(keys@.map_values(|k: EntryKey| k@) =~= reference_keys(g, into));
    let mut res: Vec<ReferenceInfo> = Vec::new();
    let mut k: usize = 0;
    while k < order.len()
        invariant
            sorted_positions(reference_keys(g, into), order@),
            infos@.len() == into.len(),
            forall|j: int| 0 <= j < infos@.len() ==> (#[trigger] infos@[j])@ == reference_info_of(g, into[j]),
            k <= order@.len(),
            res@.len() == k,
            forall|j: int| 0 <= j < k ==> (#[trigger] res@[j])@ == reference_info_of(g, into[order@[j] as int]),
        decreases order@.len() - k,
    {
        assert(order@.contains(order@[k as int]));
        let item = copy_reference(&infos[order[k]]);
        res.push(item);
        k = k + 1;
    }
    res
}

/// Callers split into those outside tests and those in tests.
pub struct CallerSplit {
    pub primary: Vec<CallerInfo>,
    pub test: Vec<CallerInfo>,
}

/// References split into those outside tests and those in tests.
pub struct ReferenceSplit {
    pub primary: Vec<ReferenceInfo>,
    pub test: Vec<ReferenceInfo>,
}

pub open spec fn caller_views(v: Seq<CallerInfo>) -> Seq<CallerInfoV> {
    v.map_values(|c: CallerInfo| c@)
}

pub open spec fn reference_views(v: Seq<ReferenceInfo>) -> Seq<ReferenceInfoV> {
    v.map_values(|r: ReferenceInfo| r@)
}

/// The callers whose `is_test` is `t`, in order.
pub open spec fn callers_where_test(s: Seq<CallerInfoV>, t: bool) -> Seq<CallerInfoV>
    decreases s.len(),
{
    if s.len() == 0 {
        Seq::empty()
    } else if s.last().is_test == t {
        callers_where_test(s.drop_last(), t).push(s.last())
    } else {
        callers_where_test(s.drop_last(), t)
    }
}

/// The references whose `is_test` is `t`, in order.
pub open spec fn references_where_test(s: Seq<ReferenceInfoV>, t: bool) -> Seq<ReferenceInfoV>
    decreases s.len(),
{
    if s.len() == 0 {
        Seq::empty()
    } else if s.last().is_test == t {
        references_where_test(s.drop_last(), t).push(s.last())
    } else {
        references_where_test(s.drop_last(), t)
    }
}

/// Law: hiding test callers loses no caller. Every caller lands in exactly
/// one of the two groups, each group only holds callers of its kind, and the
/// two groups together are as many as the callers.
pub proof fn law_split_callers_partitions(s: Seq<CallerInfoV>)
    ensures
        callers_where_test(s, false).len() + callers_where_test(s, true).len() == s.len(),
        forall|k: int| 0 <= k < callers_where_test(s, true).len() ==> (#[trigger] callers_where_test(s, true)[k]).is_test,
        forall|k: int| 0 <= k < callers_where_test(s, false).len() ==> !(#[trigger] callers_where_test(s, false)[k]).is_test,
    decreases s.len(),
{
    if s.len() > 0 {
        law_split_callers_partitions(s.drop_last());
        let pt = callers_where_test(s.drop_last(), true);
        let pf = callers_where_test(s.drop_last(), false);
        assert forall|k: int| 0 <= k < callers_where_test(s, true).len() implies (#[trigger] callers_where_test(s, true)[k]).is_test by {
            if k < pt.len() {
                assert(callers_where_test(s, true)[k] == pt[k]);
            }
        }
        assert forall|k: int| 0 <= k < callers_where_test(s, false).len() implies !(#[trigger] callers_where_test(s, false)[k]).is_test by {
            if k < pf.len() {
                assert(callers_where_test(s, false)[k] == pf[k]);
            }
        }
    }
}

/// Splits callers into those outside tests and those in tests, keeping
/// their order.
pub fn split_callers(callers: Vec<CallerInfo>) -> (res: CallerSplit)
    ensures
        caller_views(res.primary@) == callers_where_test(caller_views(callers@), false),
        caller_views(res.test@) == callers_where_test(caller_views(callers@), true),
{
    let ghost all = caller_views(callers@);
    let mut primary: Vec<CallerInfo> = Vec::new();
    let mut test: Vec<CallerInfo> = Vec::new();
    let mut i: usize = 0;
    while i < callers.len()
        invariant
            i <= callers@.len(),
            all == caller_views(callers@),
            caller_views(primary@) == callers_where_test(all.take(i as int), false),
            caller_views(test@) == callers_where_test(all.take(i as int), true),
        decreases callers@.len() - i,
    {
        assert(all.take(i + 1).drop_last() =~= all.take(i as int));
        assert(all.take(i + 1).last() == callers@[i as int]@);
        let item = copy_caller(&callers[i]);
        if item.is_test {
            test.push(item);
            assert(caller_views(test@) =~= callers_where_test(all.take(i + 1), true));
            assert(caller_views(primary@) =~= callers_where_test(all.take(i + 1), false));
        } else {
            primary.push(item);
            assert(caller_views(primary@) =~= callers_where_test(all.take(i + 1), false));
            assert(caller_views(test@) =~= callers_where_test(all.take(i + 1), true));
        }
        i = i + 1;
    }
    assert(all.take(callers@.len() as int) =~= all);
    CallerSplit { primary, test }
}

/// Splits references into those outside tests and those in tests, keeping
/// their order.
pub fn split_references(references: Vec<ReferenceInfo>) -> (res: ReferenceSplit)
    ensures
        reference_views(res.primary@) == references_where_test(reference_views(references@), false),
        reference_views(res.test@) == references_where_test(reference_views(references@), true),
{
    let ghost all = reference_views(references@);
    let mut primary: Vec<ReferenceInfo> = Vec::new();
    let mut test: Vec<ReferenceInfo> = Vec::new();
    let mut i: usize = 0;
    while i < references.len()
        invariant
            i <= references@.len(),
            all == reference_views(references@),
            reference_views(primary@) == references_where_test(all.take(i as int), false),
            reference_views(test@) == references_where_test(all.take(i as int), true),
        decreases references@.len() - i,
    {
        assert(all.take(i + 1).drop_last() =~= all.take(i as int));
        assert(all.take(i + 1).last() == references@[i as int]@);
        let item = copy_reference(&references[i]);
        if item.is_test {
            test.push(item);
            assert(reference_views(test@) =~= references_where_test(all.take(i + 1), true));
            assert(reference_views(primary@) =~= references_where_test(all.take(i + 1), false));
        } else {
            primary.push(item);
            assert(reference_views(primary@) =~= references_where_test(all.take(i + 1), false));
            assert(reference_views(test@) =~= references_where_test(all.take(i + 1), true));
        }
        i = i + 1;
    }
    assert(all.take(references@.len() as int) =~= all);
    ReferenceSplit { primary, test }
}

/// The callers of `node` up to `depth` levels away, in the order that
/// `collect_callers` gives them.
pub open spec fn callers_listing(g: CallGraphV, node: usize, depth: usize, s: Seq<CallerInfoV>) -> bool {
    exists|w: Seq<Step>, order: Seq<usize>| #![trigger walk_ok(g, node, depth, w), sorted_positions(caller_keys(g, w), order)] {
        &&& walk_ok(g, node, depth, w)
        &&& sorted_positions(caller_keys(g, w), order)
        &&& s.len() == w.len()
        &&& forall|k: int| 0 <= k < s.len() ==> #[trigger] s[k] == caller_info_of(g, w[order[k] as int])
    }
}

/// The references to `node`, in the order that `collect_references`
/// gives them.
pub open spec fn references_listing(g: CallGraphV, node: usize, s: Seq<ReferenceInfoV>) -> bool {
    let refs = references_to(g.references, node as int, g.references.len());
    exists|order: Seq<usize>| #![trigger sorted_positions(reference_keys(g, refs), order)] {
        &&& sorted_positions(reference_keys(g, refs), order)
        &&& s.len() == refs.len()
        &&& forall|k: int| 0 <= k < s.len() ==> #[trigger] s[k] == reference_info_of(g, refs[order[k] as int])
    }
}

/// Law: the callers of a function are listed nearest first, and among
/// callers at the same depth the hotter ones (more calls and references
/// into them) come first.
pub proof fn law_callers_hotter_first(g: CallGraphV, node: usize, depth: usize, s: Seq<CallerInfoV>, i: int, j: int)
    requires
        callers_listing(g, node, depth, s),
        0 <= i < j < s.len(),
    ensures
        s[i].depth < s[j].depth || (s[i].depth == s[j].depth && s[i].heat >= s[j].heat),
{
    let (w, order) = choose|w: Seq<Step>, order: Seq<usize>| #![trigger walk_ok(g, node, depth, w),
        sorted_positions(caller_keys(g, w), order)] {
        &&& walk_ok(g, node, depth, w)
        &&& sorted_positions(caller_keys(g, w), order)
        &&& s.len() == w.len()
        &&& forall|k: int| 0 <= k < s.len() ==> #[trigger] s[k] == caller_info_of(g, w[order[k] as int])
    };
    let keys = caller_keys(g, w);
    assert(order.contains(order[i]));
    assert(order.contains(order[j]));
    assert(placed_before(keys, order[i], order[j]));
    assert(s[i] == caller_info_of(g, w[order[i] as int]));
    assert(s[j] == caller_info_of(g, w[order[j] as int]));
    assert(keys[order[i] as int] == caller_key(s[i]));
    assert(keys[order[j] as int] == caller_key(s[j]));
}

/// Law: the references to a function are listed hottest first.
pub proof fn law_references_hotter_first(g: CallGraphV, node: usize, s: Seq<ReferenceInfoV>, i: int, j: int)
    requires
        references_listing(g, node, s),
        0 <= i < j < s.len(),
    ensures
        s[i].heat >= s[j].heat,
{
    let refs = references_to(g.references, node as int, g.references.len());
    let order = choose|order: Seq<usize>| #![trigger sorted_positions(reference_keys(g, refs), order)] {
        &&& sorted_positions(reference_keys(g, refs), order)
        &&& s.len() == refs.len()
        &&& forall|k: int| 0 <= k < s.len() ==> #[trigger] s[k] == reference_info_of(g, refs[order[k] as int])
    };
    let keys = reference_keys(g, refs);
    assert(order.contains(order[i]));
    assert(order.contains(order[j]));
    assert(placed_before(keys, order[i], order[j]));
    assert(s[i] == reference_info_of(g, refs[order[i] as int]));
    assert(s[j] == reference_info_of(g, refs[order[j] as int]));
    assert(keys[order[i] as int] == reference_key(s[i]));
    assert(keys[order[j] as int] == reference_key(s[j]));
}

/// Law: a listing cut to `max` entries shows at most `max` of them, its
/// first ones, and counts the rest as hidden: shown and hidden make up
/// the whole listing.
pub proof fn law_cut_accounts_for_all<T>(s: Seq<T>, max: usize)
    requires
        s.len() <= usize::MAX,
    ensures
        cut(s, max).len() <= max,
        cut(s, max).len() + cut_count(s.len(), max) == s.len(),
        cut(s, max) == s.take(cut(s, max).len() as int),
        s.len() <= max ==> cut(s, max) == s && cut_count(s.len(), max) == 0,
{
    assert(s.take(s.len() as int) =~= s);
}

/// What a match learns from the graph: the function whose lines hold it,
/// and that function's callers and references, those from tests apart.
pub struct MatchEnrichment {
    pub node: usize,
    pub callers: CallerSplit,
    pub references: ReferenceSplit,
}

/// The function holding line `line` of `file`, with its callers up to
/// `depth` levels away and its references, each split by whether they
/// come from tests; none where no function holds the line.
#[verifier::spinoff_prover]
pub fn enrich_match(p: &QueryCachePayload, file: &str, line: usize, depth: usize) -> (res: Option<MatchEnrichment>)
    requires
        p.wf(),
        p.graph@.edges.len() + p.graph@.references.len() <= usize::MAX,
    ensures
        match res {
            None => lookup_spec(p.function_index.by_file@, file@, line) is None,
            Some(e) => {
                &&& lookup_spec(p.function_index.by_file@, file@, line) == Some(e.node)
                &&& e.node < p.graph@.nodes.len()
                &&& exists|all: Seq<CallerInfoV>| #![trigger callers_listing(p.graph@, e.node, depth, all)] {
                    &&& callers_listing(p.graph@, e.node, depth, all)
                    &&& caller_views(e.callers.primary@) == callers_where_test(all, false)
                    &&& caller_views(e.callers.test@) == callers_where_test(all, true)
                }
                &&& exists|all: Seq<ReferenceInfoV>| #![trigger references_listing(p.graph@, e.node, all)] {
                    &&& references_listing(p.graph@, e.node, all)
                    &&& reference_views(e.references.primary@) == references_where_test(all, false)
                    &&& reference_views(e.references.test@) == references_where_test(all, true)
                }
            },
        },
{
    let node_count = p.graph.nodes.len();
    proof {
        lemma_index_sorted(p.function_index.by_file@, p.graph@.nodes);
        assert(p.graph@.nodes.len() == node_count);
        law_lookup_encloses(p.function_index.by_file@, p.graph@.nodes, file@, line);
    }
    let node = match p.function_index.lookup(file, line) {
        Some(n) => n,
        None => {
            return None;
        },
    };
    let all_callers = collect_callers(p, node, depth);
    assert(callers_listing(p.graph@, node, depth, caller_views(all_callers@)));
    let all_references = collect_references(p, node);
    assert(references_listing(p.graph@, node, reference_views(all_references@)));
    let ghost cv = caller_views(all_callers@);
    let ghost rv = reference_views(all_references@);
    let callers = split_callers(all_callers);
    let references = split_references(all_references);
    assert(callers_listing(p.graph@, node, depth, cv));
    assert(references_listing(p.graph@, node, rv));
    Some(MatchEnrichment { node, callers, references })
}

/// The first `max` entries, and how many were left out.
pub fn truncate_context<T>(entries: Vec<T>, max: usize) -> (res: (Vec<T>, usize))
    ensures
        entries@.len() <= max ==> res.0@ == entries@ && res.1 == 0,
        entries@.len() > max ==> res.0@ == entries@.take(max as int) && res.1 == entries@.len() - max,
{
    let mut entries = entries;
    if entries.len() <= max {
        return (entries, 0);
    }
    let hidden = entries.len() - max;
    entries.truncate(max);
    (entries, hidden)
}

/// `"<n> more <label>[s] hidden"` when some are hidden.
pub open spec fn hidden_context_text(label: Seq<char>, hidden: usize) -> Option<Seq<char>> {
    if hidden == 0 {
        None
    } else {
        Some(decimal(hidden as nat) + " more "@ + label + (if hidden == 1 { ""@ } else { "s"@ }) + " hidden"@)
    }
}

pub fn summarize_hidden_context(label: &str, hidden: usize) -> (res: Option<String>)
    ensures
        match res {
            Some(t) => hidden_context_text(label@, hidden) == Some(t@),
            None => hidden_context_text(label@, hidden) is None,
        },
{
    if hidden == 0 {
        None
    } else {
        let mut out = decimal_string(hidden);
        push_str(&mut out, " more ");
        push_str(&mut out, label);
        if hidden != 1 {
            push_str(&mut out, "s");
        } else {
            proof {
                reveal_strlit("");
            }
        }
        push_str(&mut out, " hidden");
        assert(out@ =~= decimal(hidden as nat) + " more "@ + label@ + (if hidden == 1 { ""@ } else { "s"@ }) + " hidden"@);
        Some(out)
    }
}

/// The note on test callers left out of a listing.
pub open spec fn hidden_test_callers_text(primary: nat, test: nat) -> Option<Seq<char>> {
    if test == 0 {
        None
    } else if primary == 0 {
        Some("Only test callers found ("@ + decimal(test) + " hidden)"@)
    } else {
        Some(decimal(test) + " test caller"@ + (if test == 1 { ""@ } else { "s"@ }) + " hidden"@)
    }
}

pub fn summarize_hidden_test_callers(callers: &CallerSplit) -> (res: Option<String>)
    ensures
        match res {
            Some(t) => hidden_test_callers_text(callers.primary@.len(), callers.test@.len()) == Some(t@),
            None => hidden_test_callers_text(callers.primary@.len(), callers.test@.len()) is None,
        },
{
    let test = callers.test.len();
    if test == 0 {
        None
    } else if callers.primary.len() == 0 {
        let mut out = owned("Only test callers found (");
        let count = decimal_string(test);
        push_str(&mut out, count.as_str());
        push_str(&mut out, " hidden)");
        Some(out)
    } else {
        let mut out = decimal_string(test);
        push_str(&mut out, " test caller");
        if test != 1 {
            push_str(&mut out, "s");
        } else {
            proof {
                reveal_strlit("");
            }
        }
        push_str(&mut out, " hidden");
        assert(out@ =~= decimal(test as nat) + " test caller"@ + (if test == 1 { ""@ } else { "s"@ }) + " hidden"@);
        Some(out)
    }
}

/// The note on test references left out of a listing.
pub open spec fn hidden_test_references_text(test: nat) -> Option<Seq<char>> {
    if test == 0 {
        None
    } else {
        Some("Only test references found ("@ + decimal(test) + " hidden)"@)
    }
}

pub fn summarize_hidden_test_references(references: &ReferenceSplit) -> (res: Option<String>)
    ensures
        match res {
            Some(t) => hidden_test_references_text(references.test@.len()) == Some(t@),
            None => hidden_test_references_text(references.test@.len()) is None,
        },
{
    let test = references.test.len();
    if test == 0 {
        None
    } else {
        let mut out = owned("Only test references found (");
        let count = decimal_string(test);
        push_str(&mut out, count.as_str());
        push_str(&mut out, " hidden)");
        Some(out)
    }
}

/// `[label: a, b, ...]` dimmed, or `[label]` with no entries.
pub open spec fn compact_section_text(enabled: bool, label: Seq<char>, entries: Seq<Seq<char>>) -> Seq<char> {
    painted(enabled, "["@, dim_style()) + painted(enabled, label, dim_style())
        + if entries.len() == 0 {
            painted(enabled, "]"@, dim_style())
        } else {
            painted(enabled, ": "@, dim_style()) + joined(entries, painted(enabled, ", "@, dim_style()))
                + painted(enabled, "]"@, dim_style())
        }
}

impl Colors {
    pub fn format_compact_section(&self, label: &str, entries: &Vec<String>) -> (res: String)
        ensures
            res@ == compact_section_text(self.enabled, label@, strings_view(entries@)),
    {
        let mut out = self.dim("[");
        let l = self.dim(label);
        push_str(&mut out, l.as_str());
        if entries.len() == 0 {
            let close = self.dim("]");
            push_str(&mut out, close.as_str());
            return out;
        }
        let colon = self.dim(": ");
        push_str(&mut out, colon.as_str());
        let sep = self.dim(", ");
        let body = join(entries, sep.as_str());
        assert(entries@.map_values(|p: String| p@) =~= strings_view(entries@));
        push_str(&mut out, body.as_str());
        let close = self.dim("]");
        push_str(&mut out, close.as_str());
        assert(out@ =~= compact_section_text(self.enabled, label@, strings_view(entries@)));
        out
    }
}

/// How many entries of each listing were cut.
pub struct HiddenContextCounts {
    pub callers: usize,
    pub test_callers: usize,
    pub references: usize,
    pub test_references: usize,
}

/// The first of two optional notes that is there.
pub open spec fn either(a: Option<Seq<char>>, b: Option<Seq<char>>) -> Option<Seq<char>> {
    if a is Some { a } else { b }
}

/// A section for a note, if there is one.
pub open spec fn note_section(enabled: bool, note: Option<Seq<char>>) -> Seq<Seq<char>> {
    match note {
        Some(t) => seq![compact_section_text(enabled, t, Seq::empty())],
        None => Seq::empty(),
    }
}

/// The compact sections of a match: its callers, the test callers or a
/// note on them, a note on cut callers, its references or a note on test
/// references, and a note on cut references.
pub open spec fn compact_sections(
    enabled: bool,
    primary_callers: Seq<CallerInfoV>,
    test_callers: Seq<CallerInfoV>,
    primary_references: Seq<ReferenceInfoV>,
    test_references: Seq<ReferenceInfoV>,
    include_test_callers: bool,
    hidden: (usize, usize, usize, usize),
) -> Seq<Seq<char>> {
    let callers_part = if primary_callers.len() > 0 {
        seq![compact_section_text(enabled, "Called via"@, primary_callers.map_values(|c: CallerInfoV| caller_text(enabled, c)))]
    } else {
        Seq::empty()
    };
    let tests_part = if include_test_callers && test_callers.len() > 0 {
        seq![compact_section_text(enabled, "Called via tests"@, test_callers.map_values(|c: CallerInfoV| caller_text(enabled, c)))]
    } else {
        note_section(enabled, either(hidden_context_text("test caller"@, hidden.1),
            hidden_test_callers_text(primary_callers.len(), test_callers.len())))
    };
    let cut_callers = note_section(enabled, hidden_context_text("caller"@, hidden.0));
    let refs_part = if primary_references.len() > 0 {
        seq![compact_section_text(enabled, "Referenced by"@,
            primary_references.map_values(|r: ReferenceInfoV| reference_text(enabled, r)))]
    } else {
        note_section(enabled, either(hidden_context_text("test reference"@, hidden.3),
            hidden_test_references_text(test_references.len())))
    };
    let cut_refs = note_section(enabled, hidden_context_text("reference"@, hidden.2));
    callers_part + tests_part + cut_callers + refs_part + cut_refs
}

/// Each caller as a line of text.
fn caller_texts(colors: &Colors, callers: &Vec<CallerInfo>) -> (res: Vec<String>)
    ensures
        strings_view(res@) == caller_views(callers@).map_values(|c: CallerInfoV| caller_text(colors.enabled, c)),
{
    let mut res: Vec<String> = Vec::new();
    let mut i: usize = 0;
    while i < callers.len()
        invariant
            i <= callers@.len(),
            res@.len() == i,
            strings_view(res@) == caller_views(callers@.take(i as int)).map_values(|c: CallerInfoV| caller_text(colors.enabled, c)),
        decreases callers@.len() - i,
    {
        let t = colors.format_caller(&callers[i]);
        let ghost prev = res@;
        res.push(t);
        proof {
            let target = caller_views(callers@.take(i + 1)).map_values(|c: CallerInfoV| caller_text(colors.enabled, c));
            let before = caller_views(callers@.take(i as int)).map_values(|c: CallerInfoV| caller_text(colors.enabled, c));
            assert forall|k: int| 0 <= k < i + 1 implies strings_view(res@)[k] == target[k] by {
                if k < i {
                    assert(res@[k] == prev[k]);
                    assert(strings_view(prev)[k] == before[k]);
                    assert(callers@.take(i + 1)[k] == callers@.take(i as int)[k]);
                } else {
                    assert(callers@.take(i + 1)[k] == callers@[i as int]);
                }
            }
            assert(strings_view(res@) =~= target);
        }
        i = i + 1;
    }
    assert(callers@.take(callers@.len() as int) =~= callers@);
    res
}

/// Each reference as a line of text.
fn reference_texts(colors: &Colors, references: &Vec<ReferenceInfo>) -> (res: Vec<String>)
    ensures
        strings_view(res@) == reference_views(references@).map_values(|r: ReferenceInfoV| reference_text(colors.enabled, r)),
{
    let mut res: Vec<String> = Vec::new();
    let mut i: usize = 0;
    while i < references.len()
        invariant
            i <= references@.len(),
            res@.len() == i,
            strings_view(res@) == reference_views(references@.take(i as int)).map_values(|r: ReferenceInfoV| reference_text(colors.enabled, r)),
        decreases references@.len() - i,
    {
        let t = colors.format_reference(&references[i]);
        let ghost prev = res@;
        res.push(t);
        proof {
            let target = reference_views(references@.take(i + 1)).map_values(|r: ReferenceInfoV| reference_text(colors.enabled, r));
            let before = reference_views(references@.take(i as int)).map_values(|r: ReferenceInfoV| reference_text(colors.enabled, r));
            assert forall|k: int| 0 <= k < i + 1 implies strings_view(res@)[k] == target[k] by {
                if k < i {
                    assert(res@[k] == prev[k]);
                    assert(strings_view(prev)[k] == before[k]);
                    assert(references@.take(i + 1)[k] == references@.take(i as int)[k]);
                } else {
                    assert(references@.take(i + 1)[k] == references@[i as int]);
                }
            }
            assert(strings_view(res@) =~= target);
        }
        i = i + 1;
    }
    assert(references@.take(references@.len() as int) =~= references@);
    res
}

/// A note section, when there is a note.
fn push_note(colors: &Colors, sections: &mut Vec<String>, note: Option<String>)
    ensures
        strings_view(final(sections)@) == strings_view(old(sections)@) + note_section(colors.enabled,
            match note { Some(t) => Some(t@), None => None }),
{
    let empty: Vec<String> = Vec::new();
    match note {
        Some(t) => {
            let section = colors.format_compact_section(t.as_str(), &empty);
            assert(strings_view(empty@) =~= Seq::<Seq<char>>::empty());
            sections.push(section);
            assert(strings_view(sections@) =~= strings_view(old(sections)@) + note_section(colors.enabled, Some(t@)));
        },
        None => {
            assert(strings_view(sections@) =~= strings_view(old(sections)@) + Seq::<Seq<char>>::empty());
        },
    }
}

/// The compact sections of a match, in order.
pub fn render_compact_sections(
    colors: &Colors,
    callers: &CallerSplit,
    references: &ReferenceSplit,
    include_test_callers: bool,
    hidden: &HiddenContextCounts,
) -> (res: Vec<String>)
    ensures
        strings_view(res@) == compact_sections(colors.enabled, caller_views(callers.primary@),
            caller_views(callers.test@), reference_views(references.primary@), reference_views(references.test@),
            include_test_callers, (hidden.callers, hidden.test_callers, hidden.references, hidden.test_references)),
{
    let mut sections: Vec<String> = Vec::new();
    let ghost e = colors.enabled;
    let ghost pc = caller_views(callers.primary@);
    let ghost tc = caller_views(callers.test@);
    let ghost pr = reference_views(references.primary@);
    let ghost tr = reference_views(references.test@);
    if callers.primary.len() > 0 {
        let texts = caller_texts(colors, &callers.primary);
        let section = colors.format_compact_section("Called via", &texts);
        sections.push(section);
        assert(strings_view(sections@) =~= seq![section@]);
    } else {
        assert(strings_view(sections@) =~= Seq::<Seq<char>>::empty());
    }
    let ghost s1 = strings_view(sections@);
    assert(s1 == (if pc.len() > 0 {
        seq![compact_section_text(e, "Called via"@, pc.map_values(|c: CallerInfoV| caller_text(e, c)))]
    } else {
        Seq::<Seq<char>>::empty()
    }));
    if include_test_callers && callers.test.len() > 0 {
        let texts = caller_texts(colors, &callers.test);
        let section = colors.format_compact_section("Called via tests", &texts);
        sections.push(section);
    } else {
        let note = match summarize_hidden_context("test caller", hidden.test_callers) {
            Some(t) => Some(t),
            None => summarize_hidden_test_callers(callers),
        };
        push_note(colors, &mut sections, note);
    }
    let ghost s2 = strings_view(sections@);
    assert(s2 == s1 + (if include_test_callers && tc.len() > 0 {
        seq![compact_section_text(e, "Called via tests"@, tc.map_values(|c: CallerInfoV| caller_text(e, c)))]
    } else {
        note_section(e, either(hidden_context_text("test caller"@, hidden.test_callers),
            hidden_test_callers_text(pc.len(), tc.len())))
    })) by {
        if include_test_callers && tc.len() > 0 {
            assert(s2 =~= s1.push(sections@[sections@.len() - 1]@));
        }
    }
    push_note(colors, &mut sections, summarize_hidden_context("caller", hidden.callers));
    let ghost s3 = strings_view(sections@);
    if references.primary.len() > 0 {
        let texts = reference_texts(colors, &references.primary);
        let section = colors.format_compact_section("Referenced by", &texts);
        sections.push(section);
    } else {
        let note = match summarize_hidden_context("test reference", hidden.test_references) {
            Some(t) => Some(t),
            None => summarize_hidden_test_references(references),
        };
        push_note(colors, &mut sections, note);
    }
    let ghost s4 = strings_view(sections@);
    assert(s4 == s3 + (if pr.len() > 0 {
        seq![compact_section_text(e, "Referenced by"@, pr.map_values(|r: ReferenceInfoV| reference_text(e, r)))]
    } else {
        note_section(e, either(hidden_context_text("test reference"@, hidden.test_references),
            hidden_test_references_text(tr.len())))
    })) by {
        if pr.len() > 0 {
            assert(s4 =~= s3.push(sections@[sections@.len() - 1]@));
        }
    }
    push_note(colors, &mut sections, summarize_hidden_context("reference", hidden.references));
    assert(strings_view(sections@) =~= compact_sections(colors.enabled, caller_views(callers.primary@),
        caller_views(callers.test@), reference_views(references.primary@), reference_views(references.test@),
        include_test_callers, (hidden.callers, hidden.test_callers, hidden.references, hidden.test_references)));
    sections
}

// ---------------------------------------------------------------------
// Snippet lines
// ---------------------------------------------------------------------

/// A byte range of a line that the search matched.
#[derive(Debug, Clone, Copy, PartialEq, Eq, Structural)]
pub struct MatchSpan {
    pub start: usize,
    pub end: usize,
}

/// A line of a snippet: a match, or context around one.
pub struct SnippetLine {
    pub line_number: usize,
    pub content: String,
    pub is_match: bool,
}

#[verifier::ext_equal]
pub struct SnippetLineV {
    pub line_number: usize,
    pub content: Seq<char>,
    pub is_match: bool,
}

impl View for SnippetLine {
    type V = SnippetLineV;

    open spec fn view(&self) -> SnippetLineV {
        SnippetLineV { line_number: self.line_number, content: self.content@, is_match: self.is_match }
    }
}

/// A copy of a snippet line.
pub fn copy_snippet_line(l: &SnippetLine) -> (res: SnippetLine)
    ensures
        res@ == l@,
{
    SnippetLine { line_number: l.line_number, content: l.content.clone(), is_match: l.is_match }
}

/// `s` right-aligned in `width` columns.
pub open spec fn padded(s: Seq<char>, width: nat) -> Seq<char> {
    if s.len() < width { Seq::new((width - s.len()) as nat, |i: int| ' ') + s } else { s }
}

/// A snippet line: its number right-aligned, `:` for a match and `-` for
/// context, then its text; context dimmed.
pub open spec fn snippet_line_text(enabled: bool, l: SnippetLineV, width: nat) -> Seq<char> {
    let prefix = padded(decimal(l.line_number as nat), width) + (if l.is_match { ":"@ } else { "-"@ });
    if l.is_match {
        painted(enabled, prefix, line_style()) + l.content
    } else {
        painted(enabled, prefix, dim_line_style()) + painted(enabled, l.content, dim_style())
    }
}

/// `s` right-aligned in `width` columns.
pub fn pad_left(s: &str, width: usize) -> (res: String)
    ensures
        res@ == padded(s@, width as nat),
{
    let mut out = empty_string();
    let chars = crate::text::chars_of(s);
    let len = chars.len();
    if len < width {
        let mut i: usize = 0;
        while i < width - len
            invariant
                len == s@.len(),
                len < width,
                i <= width - len,
                out@ == Seq::new(i as nat, |k: int| ' '),
            decreases width - len - i,
        {
            crate::text::push_char(&mut out, ' ');
            i = i + 1;
            assert(out@ =~= Seq::new(i as nat, |k: int| ' '));
        }
    }
    push_str(&mut out, s);
    proof {
        if len >= width {
            assert(out@ =~= s@);
        }
    }
    out
}

impl Colors {
    pub fn render_snippet_line(&self, line: &SnippetLine, width: usize) -> (res: String)
        ensures
            res@ == snippet_line_text(self.enabled, line@, width as nat),
    {
        let number = decimal_string(line.line_number);
        let mut prefix = pad_left(number.as_str(), width);
        let ghost pre = padded(decimal(line.line_number as nat), width as nat);
        assert(prefix@ == pre);
        if line.is_match {
            push_str(&mut prefix, ":");
            assert(prefix@ == pre + ":"@);
            let mut out = self.paint(prefix.as_str(), "\x1b[0m\x1b[32m");
            assert(out@ == painted(self.enabled, pre + ":"@, line_style()));
            push_str(&mut out, line.content.as_str());
            assert(out@ =~= snippet_line_text(self.enabled, line@, width as nat));
            out
        } else {
            push_str(&mut prefix, "-");
            let mut out = self.paint(prefix.as_str(), "\x1b[0m\x1b[2m\x1b[32m");
            let content = self.dim(line.content.as_str());
            push_str(&mut out, content.as_str());
            assert(out@ =~= snippet_line_text(self.enabled, line@, width as nat));
            out
        }
    }
}

/// The highlighted rest of a line from byte `cursor` on, the matches
/// from the `k`-th on marked; `None` where a match range is out of order,
/// out of the line, empty, or splits a character.
pub open spec fn highlight_rest(b: Seq<u8>, spans: Seq<MatchSpan>, k: int, cursor: int) -> Option<Seq<char>>
    decreases spans.len() - k,
{
    if k < 0 || k >= spans.len() {
        let tail = b.subrange(cursor, b.len() as int);
        if 0 <= cursor <= b.len() && valid_utf8(tail) { Some(decode_utf8(tail)) } else { None }
    } else {
        let sp = spans[k];
        let before = b.subrange(cursor, sp.start as int);
        let inside = b.subrange(sp.start as int, sp.end as int);
        if sp.start < cursor || sp.end > b.len() || sp.start >= sp.end || !is_char_boundary(b, sp.start as int)
            || !is_char_boundary(b, sp.end as int) || !valid_utf8(before) || !valid_utf8(inside) {
            None
        } else {
            match highlight_rest(b, spans, k + 1, sp.end as int) {
                Some(rest) => Some(decode_utf8(before) + match_style() + decode_utf8(inside) + reset_style() + rest),
                None => None,
            }
        }
    }
}

/// A line with its matches marked, when coloring; the line as it is when
/// not coloring, when there are no matches, or when a match range does
/// not fit the line.
pub open spec fn highlighted(enabled: bool, line: Seq<char>, spans: Seq<MatchSpan>) -> Seq<char> {
    if !enabled || spans.len() == 0 {
        line
    } else {
        match highlight_rest(encode_utf8(line), spans, 0, 0) {
            Some(r) => r,
            None => line,
        }
    }
}

impl Colors {
    pub fn highlight(&self, line: &str, submatches: &Vec<MatchSpan>) -> (res: String)
        ensures
            res@ == highlighted(self.enabled, line@, submatches@),
    {
        if !self.enabled || submatches.len() == 0 {
            return owned(line);
        }
        let bytes = line.as_bytes();
        let ghost b = bytes@;
        assert(b == encode_utf8(line@));
        let n = bytes.len();
        let ghost spans = submatches@;
        let mut pieces: Vec<String> = Vec::new();
        let mut cursor: usize = 0;
        let mut k: usize = 0;
        while k < submatches.len()
            invariant
                b == bytes@,
                b == encode_utf8(line@),
                self.enabled,
                spans.len() > 0,
                n == b.len(),
                spans == submatches@,
                k <= spans.len(),
                cursor <= n,
                k > 0 ==> cursor == spans[k - 1].end,
                highlight_rest(b, spans, 0, 0) == match highlight_rest(b, spans, k as int, cursor as int) {
                    Some(r) => Some(joined(strings_view(pieces@), Seq::empty()) + r),
                    None => None,
                },
            decreases spans.len() - k,
        {
            let sp = submatches[k];
            if sp.start < cursor || sp.end > n || sp.start >= sp.end || !line.is_char_boundary(sp.start)
                || !line.is_char_boundary(sp.end) {
                return owned(line);
            }
            let before = utf8_text(slice_subrange(bytes, cursor, sp.start));
            let inside = utf8_text(slice_subrange(bytes, sp.start, sp.end));
            match (before, inside) {
                (Some(before), Some(inside)) => {
                    let ghost done = joined(strings_view(pieces@), Seq::empty());
                    let mut piece = before;
                    push_str(&mut piece, "\x1b[0m\x1b[1m\x1b[31m");
                    push_str(&mut piece, inside.as_str());
                    push_str(&mut piece, "\x1b[0m");
                    let ghost prev = pieces@;
                    pieces.push(piece);
                    proof {
                        assert(strings_view(pieces@) =~= strings_view(prev).push(piece@));
                        lemma_joined_empty_push(strings_view(prev), piece@);
                    }
                    cursor = sp.end;
                    k = k + 1;
                },
                _ => {
                    return owned(line);
                },
            }
        }
        let tail = utf8_text(slice_subrange(bytes, cursor, n));
        match tail {
            Some(tail) => {
                let ghost prev = pieces@;
                pieces.push(tail);
                proof {
                    assert(strings_view(pieces@) =~= strings_view(prev).push(tail@));
                    lemma_joined_empty_push(strings_view(prev), tail@);
                }
                let out = join(&pieces, "");
                proof {
                    reveal_strlit("");
                    assert(""@ =~= Seq::<char>::empty());
                    assert(pieces@.map_values(|p: String| p@) =~= strings_view(pieces@));
                    assert(out@ == joined(strings_view(pieces@), Seq::empty()));
                }
                out
            },
            None => owned(line),
        }
    }
}

/// Joining with nothing between, one more part at the end.
pub proof fn lemma_joined_empty_push(parts: Seq<Seq<char>>, x: Seq<char>)
    ensures
        joined(parts.push(x), Seq::empty()) == joined(parts, Seq::empty()) + x,
{
    assert(parts.push(x).drop_last() =~= parts);
    if parts.len() == 0 {
        assert(joined(parts, Seq::empty()) =~= Seq::<char>::empty());
        assert(Seq::<char>::empty() + x =~= x);
    } else {
        assert(joined(parts, Seq::empty()) + Seq::<char>::empty() + x =~= joined(parts, Seq::empty()) + x);
    }
}

// ---------------------------------------------------------------------
// What a match shows
// ---------------------------------------------------------------------

/// The callers and references of a match, each listing cut to `max`
/// entries.
pub struct MatchContext {
    pub primary_callers: Vec<CallerInfo>,
    pub hidden_callers: usize,
    pub test_callers: Vec<CallerInfo>,
    pub hidden_test_callers: usize,
    pub primary_references: Vec<ReferenceInfo>,
    pub hidden_references: usize,
    pub hidden_test_references: usize,
}

/// A listing cut to `max` entries.
pub open spec fn cut<T>(s: Seq<T>, max: usize) -> Seq<T> {
    if s.len() <= max { s } else { s.take(max as int) }
}

/// How many entries cutting a listing to `max` leaves out.
pub open spec fn cut_count(len: nat, max: usize) -> usize {
    if len <= max { 0 } else { (len - max) as usize }
}

fn copy_callers(v: &Vec<CallerInfo>) -> (res: Vec<CallerInfo>)
    ensures
        caller_views(res@) == caller_views(v@),
{
    let mut res: Vec<CallerInfo> = Vec::new();
    let mut i: usize = 0;
    while i < v.len()
        invariant
            i <= v@.len(),
            res@.len() == i,
            caller_views(res@) == caller_views(v@.take(i as int)),
        decreases v@.len() - i,
    {
        let ghost prev = res@;
        res.push(copy_caller(&v[i]));
        proof {
            assert forall|k: int| 0 <= k < i + 1 implies caller_views(res@)[k] == caller_views(v@.take(i + 1))[k] by {
                if k < i {
                    assert(res@[k] == prev[k]);
                    assert(caller_views(prev)[k] == caller_views(v@.take(i as int))[k]);
                }
            }
            assert(caller_views(res@) =~= caller_views(v@.take(i + 1)));
        }
        i = i + 1;
    }
    assert(v@.take(v@.len() as int) =~= v@);
    res
}

fn copy_references(v: &Vec<ReferenceInfo>) -> (res: Vec<ReferenceInfo>)
    ensures
        reference_views(res@) == reference_views(v@),
{
    let mut res: Vec<ReferenceInfo> = Vec::new();
    let mut i: usize = 0;
    while i < v.len()
        invariant
            i <= v@.len(),
            res@.len() == i,
            reference_views(res@) == reference_views(v@.take(i as int)),
        decreases v@.len() - i,
    {
        let ghost prev = res@;
        res.push(copy_reference(&v[i]));
        proof {
            assert forall|k: int| 0 <= k < i + 1 implies reference_views(res@)[k] == reference_views(v@.take(i + 1))[k] by {
                if k < i {
                    assert(res@[k] == prev[k]);
                    assert(reference_views(prev)[k] == reference_views(v@.take(i as int))[k]);
                }
            }
            assert(reference_views(res@) =~= reference_views(v@.take(i + 1)));
        }
        i = i + 1;
    }
    assert(v@.take(v@.len() as int) =~= v@);
    res
}

impl MatchContext {
    /// The listings of a match cut to `max` entries each.
    pub fn new(callers: &CallerSplit, references: &ReferenceSplit, max: usize) -> (res: MatchContext)
        ensures
            caller_views(res.primary_callers@) == cut(caller_views(callers.primary@), max),
            res.hidden_callers == cut_count(callers.primary@.len(), max),
            caller_views(res.test_callers@) == cut(caller_views(callers.test@), max),
            res.hidden_test_callers == cut_count(callers.test@.len(), max),
            reference_views(res.primary_references@) == cut(reference_views(references.primary@), max),
            res.hidden_references == cut_count(references.primary@.len(), max),
            res.hidden_test_references == cut_count(references.test@.len(), max),
    {
        let (primary_callers, hidden_callers) = truncate_context(copy_callers(&callers.primary), max);
        let (test_callers, hidden_test_callers) = truncate_context(copy_callers(&callers.test), max);
        let (primary_references, hidden_references) = truncate_context(copy_references(&references.primary), max);
        let hidden_test_references = if references.test.len() <= max { 0 } else { references.test.len() - max };
        proof {
            assert(caller_views(primary_callers@) =~= cut(caller_views(callers.primary@), max));
            assert(caller_views(test_callers@) =~= cut(caller_views(callers.test@), max));
            assert(reference_views(primary_references@) =~= cut(reference_views(references.primary@), max));
        }
        MatchContext {
            primary_callers,
            hidden_callers,
            test_callers,
            hidden_test_callers,
            primary_references,
            hidden_references,
            hidden_test_references,
        }
    }
}

/// `"  "` or `"    "` and then a dimmed note, for a note that is there.
pub open spec fn note_line(enabled: bool, note: Option<Seq<char>>) -> Seq<Seq<char>> {
    match note {
        Some(t) => seq!["    "@ + painted(enabled, t, dim_style())],
        None => Seq::empty(),
    }
}

/// A heading and its entries, indented, when there are entries.
pub open spec fn listing_lines(enabled: bool, heading: Seq<char>, entries: Seq<Seq<char>>) -> Seq<Seq<char>> {
    if entries.len() == 0 {
        Seq::empty()
    } else {
        seq!["  "@ + painted(enabled, heading, dim_style())] + entries.map_values(|e: Seq<char>| "    "@ + e)
    }
}

/// The detail lines under a match: its callers, a note on cut callers,
/// its test callers or a note on them, its references, a note on cut
/// references, and a note on test references.
pub open spec fn detail_lines_of(
    enabled: bool,
    all_primary_callers: nat,
    all_test_callers: nat,
    all_test_references: nat,
    m: (Seq<CallerInfoV>, usize, Seq<CallerInfoV>, usize, Seq<ReferenceInfoV>, usize, usize),
    include_test_callers: bool,
) -> Seq<Seq<char>> {
    let (primary_callers, hidden_callers, test_callers, hidden_test_callers, primary_references,
        hidden_references, hidden_test_references) = m;
    listing_lines(enabled, "Called via:"@, primary_callers.map_values(|c: CallerInfoV| caller_text(enabled, c)))
        + note_line(enabled, hidden_context_text("caller"@, hidden_callers))
        + (if include_test_callers && test_callers.len() > 0 {
            listing_lines(enabled, "Called via tests:"@, test_callers.map_values(|c: CallerInfoV| caller_text(enabled, c)))
                + note_line(enabled, hidden_context_text("test caller"@, hidden_test_callers))
        } else {
            note_line(enabled, either(hidden_context_text("test caller"@, hidden_test_callers),
                hidden_test_callers_text(all_primary_callers, all_test_callers)))
        })
        + listing_lines(enabled, "Referenced by:"@,
            primary_references.map_values(|r: ReferenceInfoV| reference_text(enabled, r)))
        + note_line(enabled, hidden_context_text("reference"@, hidden_references))
        + note_line(enabled, either(hidden_context_text("test reference"@, hidden_test_references),
            hidden_test_references_text(all_test_references)))
}

/// The fields of a match context as one spec value.
pub open spec fn context_parts(m: MatchContext) -> (Seq<CallerInfoV>, usize, Seq<CallerInfoV>, usize, Seq<ReferenceInfoV>, usize, usize) {
    (caller_views(m.primary_callers@), m.hidden_callers, caller_views(m.test_callers@), m.hidden_test_callers,
        reference_views(m.primary_references@), m.hidden_references, m.hidden_test_references)
}

/// Appends a dimmed note, indented, when there is one.
fn push_note_line(colors: &Colors, lines: &mut Vec<String>, note: Option<String>)
    ensures
        strings_view(final(lines)@) == strings_view(old(lines)@) + note_line(colors.enabled,
            match note { Some(t) => Some(t@), None => None }),
{
    match note {
        Some(t) => {
            let mut line = owned("    ");
            let d = colors.dim(t.as_str());
            push_str(&mut line, d.as_str());
            lines.push(line);
            assert(strings_view(lines@) =~= strings_view(old(lines)@) + note_line(colors.enabled, Some(t@)));
        },
        None => {
            assert(strings_view(lines@) =~= strings_view(old(lines)@) + Seq::<Seq<char>>::empty());
        },
    }
}

/// Appends a heading and its entries, indented, when there are entries.
fn push_listing(colors: &Colors, lines: &mut Vec<String>, heading: &str, entries: &Vec<String>)
    ensures
        strings_view(final(lines)@) == strings_view(old(lines)@) + listing_lines(colors.enabled, heading@,
            strings_view(entries@)),
{
    if entries.len() == 0 {
        assert(strings_view(lines@) =~= strings_view(old(lines)@) + Seq::<Seq<char>>::empty());
        return;
    }
    let mut head = owned("  ");
    let d = colors.dim(heading);
    push_str(&mut head, d.as_str());
    lines.push(head);
    let ghost base = strings_view(lines@);
    let mut i: usize = 0;
    while i < entries.len()
        invariant
            i <= entries@.len(),
            lines@.len() == base.len() + i,
            strings_view(lines@) == base + strings_view(entries@.take(i as int)).map_values(|e: Seq<char>| "    "@ + e),
        decreases entries@.len() - i,
    {
        let mut line = owned("    ");
        push_str(&mut line, entries[i].as_str());
        let ghost prev = lines@;
        lines.push(line);
        proof {
            let target = base + strings_view(entries@.take(i + 1)).map_values(|e: Seq<char>| "    "@ + e);
            let before = base + strings_view(entries@.take(i as int)).map_values(|e: Seq<char>| "    "@ + e);
            assert forall|k: int| 0 <= k < lines@.len() implies strings_view(lines@)[k] == target[k] by {
                if k < prev.len() {
                    assert(lines@[k] == prev[k]);
                    assert(strings_view(prev)[k] == before[k]);
                    if k >= base.len() {
                        assert(entries@.take(i + 1)[k - base.len()] == entries@.take(i as int)[k - base.len()]);
                    }
                }
            }
            assert(strings_view(lines@) =~= target);
        }
        i = i + 1;
    }
    assert(entries@.take(entries@.len() as int) =~= entries@);
    assert(strings_view(lines@) =~= strings_view(old(lines)@) + listing_lines(colors.enabled, heading@,
        strings_view(entries@)));
}

impl Colors {
    /// The detail lines under a match.
    pub fn detail_lines(
        &self,
        callers: &CallerSplit,
        references: &ReferenceSplit,
        m: &MatchContext,
        include_test_callers: bool,
    ) -> (res: Vec<String>)
        ensures
            strings_view(res@) == detail_lines_of(self.enabled, callers.primary@.len(), callers.test@.len(),
                references.test@.len(), context_parts(*m), include_test_callers),
    {
        let ghost e = self.enabled;
        let mut lines: Vec<String> = Vec::new();
        let texts = caller_texts(self, &m.primary_callers);
        push_listing(self, &mut lines, "Called via:", &texts);
        push_note_line(self, &mut lines, summarize_hidden_context("caller", m.hidden_callers));
        let ghost l1 = strings_view(lines@);
        if include_test_callers && m.test_callers.len() > 0 {
            let texts = caller_texts(self, &m.test_callers);
            push_listing(self, &mut lines, "Called via tests:", &texts);
            push_note_line(self, &mut lines, summarize_hidden_context("test caller", m.hidden_test_callers));
        } else {
            let note = match summarize_hidden_context("test caller", m.hidden_test_callers) {
                Some(t) => Some(t),
                None => summarize_hidden_test_callers(callers),
            };
            push_note_line(self, &mut lines, note);
        }
        let ghost l2 = strings_view(lines@);
        let texts = reference_texts(self, &m.primary_references);
        push_listing(self, &mut lines, "Referenced by:", &texts);
        push_note_line(self, &mut lines, summarize_hidden_context("reference", m.hidden_references));
        let note = match summarize_hidden_context("test reference", m.hidden_test_references) {
            Some(t) => Some(t),
            None => summarize_hidden_test_references(references),
        };
        push_note_line(self, &mut lines, note);
        assert(strings_view(lines@) =~= detail_lines_of(self.enabled, callers.primary@.len(), callers.test@.len(),
            references.test@.len(), context_parts(*m), include_test_callers));
        lines
    }
}

/// The header of a match in a function: `file:function:line`, with the line
/// the function is defined on, and in compact form the context sections
/// after it on the same line.
pub open spec fn location_text(
    enabled: bool,
    file: Seq<char>,
    function: Seq<char>,
    function_line: usize,
    compact: bool,
    sections: Seq<Seq<char>>,
) -> Seq<char> {
    let base = painted(enabled, file, path_style()) + ":"@ + function + ":"@ + decimal(function_line as nat);
    if compact && sections.len() > 0 { base + " "@ + joined(sections, " "@) } else { base }
}

impl Colors {
    /// The header and the detail lines of a match in function `function`.
    pub fn match_header(
        &self,
        file: &str,
        function: &str,
        function_line: usize,
        callers: &CallerSplit,
        references: &ReferenceSplit,
        m: &MatchContext,
        compact: bool,
        include_test_callers: bool,
    ) -> (res: (String, Vec<String>))
        ensures
            res.0@ == location_text(self.enabled, file@, function@, function_line, compact,
                compact_sections(self.enabled, caller_views(m.primary_callers@), caller_views(m.test_callers@),
                    reference_views(m.primary_references@), Seq::empty(), include_test_callers,
                    (m.hidden_callers, m.hidden_test_callers, m.hidden_references, m.hidden_test_references))),
            compact ==> res.1@.len() == 0,
            !compact ==> strings_view(res.1@) == detail_lines_of(self.enabled, callers.primary@.len(),
                callers.test@.len(), references.test@.len(), context_parts(*m), include_test_callers),
    {
        let mut location = self.format_location(file, function, function_line);
        let hidden = HiddenContextCounts {
            callers: m.hidden_callers,
            test_callers: m.hidden_test_callers,
            references: m.hidden_references,
            test_references: m.hidden_test_references,
        };
        let cut_callers = CallerSplit { primary: copy_callers(&m.primary_callers), test: copy_callers(&m.test_callers) };
        let cut_references = ReferenceSplit { primary: copy_references(&m.primary_references), test: Vec::new() };
        assert(reference_views(cut_references.test@) =~= Seq::<ReferenceInfoV>::empty());
        if compact {
            let sections = render_compact_sections(self, &cut_callers, &cut_references, include_test_callers, &hidden);
            if sections.len() > 0 {
                push_str(&mut location, " ");
                let joined_sections = join(&sections, " ");
                assert(sections@.map_values(|p: String| p@) =~= strings_view(sections@));
                push_str(&mut location, joined_sections.as_str());
            }
            (location, Vec::new())
        } else {
            let details = self.detail_lines(callers, references, m, include_test_callers);
            (location, details)
        }
    }
}

/// A rendered match: its header, snippet lines, and detail lines.
pub struct RenderedBlock {
    pub file: String,
    pub location: String,
    pub match_line_number: usize,
    pub code_lines: Vec<SnippetLine>,
    pub detail_lines: Vec<String>,
}

#[verifier::ext_equal]
pub struct RenderedBlockV {
    pub file: Seq<char>,
    pub location: Seq<char>,
    pub match_line_number: usize,
    pub code_lines: Seq<SnippetLineV>,
    pub detail_lines: Seq<Seq<char>>,
}

pub open spec fn snippet_views(v: Seq<SnippetLine>) -> Seq<SnippetLineV> {
    v.map_values(|l: SnippetLine| l@)
}

impl View for RenderedBlock {
    type V = RenderedBlockV;

    open spec fn view(&self) -> RenderedBlockV {
        RenderedBlockV {
            file: self.file@,
            location: self.location@,
            match_line_number: self.match_line_number,
            code_lines: snippet_views(self.code_lines@),
            detail_lines: strings_view(self.detail_lines@),
        }
    }
}

/// The widest line number of a snippet, in digits; 1 for no lines.
pub open spec fn number_width(lines: Seq<SnippetLineV>) -> nat
    decreases lines.len(),
{
    if lines.len() == 0 {
        1
    } else {
        let rest = number_width(lines.drop_last());
        let w = decimal(lines.last().line_number as nat).len();
        if lines.len() == 1 { w } else if w > rest { w } else { rest }
    }
}

/// The lines a block prints: its header, its snippet with the line numbers
/// aligned, its detail lines, and an empty line.
pub open spec fn block_text(enabled: bool, b: RenderedBlockV) -> Seq<Seq<char>> {
    seq![b.location]
        + b.code_lines.map_values(|l: SnippetLineV| snippet_line_text(enabled, l, number_width(b.code_lines)))
        + b.detail_lines + seq![Seq::empty()]
}

impl Colors {
    /// The lines a block prints.
    pub fn block_lines(&self, block: &RenderedBlock) -> (res: Vec<String>)
        ensures
            strings_view(res@) == block_text(self.enabled, block@),
    {
        let ghost code = snippet_views(block.code_lines@);
        let mut width: usize = 1;
        let mut i: usize = 0;
        while i < block.code_lines.len()
            invariant
                i <= block.code_lines@.len(),
                code == snippet_views(block.code_lines@),
                width == number_width(code.take(i as int)),
            decreases block.code_lines@.len() - i,
        {
            let digits = decimal_string(block.code_lines[i].line_number);
            let w = crate::text::chars_of(digits.as_str()).len();
            assert(code.take(i + 1).drop_last() =~= code.take(i as int));
            if i == 0 || w > width {
                width = w;
            }
            i = i + 1;
        }
        assert(code.take(code.len() as int) =~= code);
        let mut lines: Vec<String> = Vec::new();
        lines.push(block.location.clone());
        let mut i: usize = 0;
        while i < block.code_lines.len()
            invariant
                i <= block.code_lines@.len(),
                code == snippet_views(block.code_lines@),
                width == number_width(code),
                lines@.len() == 1 + i,
                strings_view(lines@) == seq![block.location@]
                    + code.take(i as int).map_values(|l: SnippetLineV| snippet_line_text(self.enabled, l, width as nat)),
            decreases block.code_lines@.len() - i,
        {
            let text = self.render_snippet_line(&block.code_lines[i], width);
            let ghost prev = lines@;
            lines.push(text);
            proof {
                let target = seq![block.location@]
                    + code.take(i + 1).map_values(|l: SnippetLineV| snippet_line_text(self.enabled, l, width as nat));
                let before = seq![block.location@]
                    + code.take(i as int).map_values(|l: SnippetLineV| snippet_line_text(self.enabled, l, width as nat));
                assert forall|k: int| 0 <= k < lines@.len() implies strings_view(lines@)[k] == target[k] by {
                    if k < prev.len() {
                        assert(lines@[k] == prev[k]);
                        assert(strings_view(prev)[k] == before[k]);
                        if k >= 1 {
                            assert(code.take(i + 1)[k - 1] == code.take(i as int)[k - 1]);
                        }
                    }
                }
                assert(strings_view(lines@) =~= target);
            }
            i = i + 1;
        }
        assert(code.take(code.len() as int) =~= code);
        let ghost with_code = strings_view(lines@);
        let mut i: usize = 0;
        while i < block.detail_lines.len()
            invariant
                i <= block.detail_lines@.len(),
                lines@.len() == with_code.len() + i,
                strings_view(lines@) == with_code + strings_view(block.detail_lines@.take(i as int)),
            decreases block.detail_lines@.len() - i,
        {
            let ghost prev = lines@;
            lines.push(block.detail_lines[i].clone());
            proof {
                assert forall|k: int| 0 <= k < lines@.len() implies strings_view(lines@)[k]
                    == (with_code + strings_view(block.detail_lines@.take(i + 1)))[k] by {
                    if k < prev.len() {
                        assert(lines@[k] == prev[k]);
                        assert(strings_view(prev)[k] == (with_code + strings_view(block.detail_lines@.take(i as int)))[k]);
                        if k >= with_code.len() {
                            assert(block.detail_lines@.take(i + 1)[k - with_code.len()]
                                == block.detail_lines@.take(i as int)[k - with_code.len()]);
                        }
                    } else {
                        assert(block.detail_lines@.take(i + 1)[i as int] == block.detail_lines@[i as int]);
                    }
                }
                assert(strings_view(lines@) =~= with_code + strings_view(block.detail_lines@.take(i + 1)));
            }
            i = i + 1;
        }
        assert(block.detail_lines@.take(block.detail_lines@.len() as int) =~= block.detail_lines@);
        lines.push(empty_string());
        assert(strings_view(lines@) =~= block_text(self.enabled, block@));
        lines
    }
}

// ---------------------------------------------------------------------
// The output of a search, event by event
// ---------------------------------------------------------------------

/// What the text output remembers between ripgrep's events: the context
/// lines seen since the last match and their file, the block being built,
/// and the last line that a flushed block showed.
pub struct QueryState {
    pub pending_context_lines: Vec<SnippetLine>,
    pub pending_context_file: Option<String>,
    pub current_block: Option<RenderedBlock>,
    pub last_rendered_line: usize,
    pub last_rendered_file: Option<String>,
}

#[verifier::ext_equal]
pub struct QueryStateV {
    pub pending: Seq<SnippetLineV>,
    pub pending_file: Option<Seq<char>>,
    pub current: Option<RenderedBlockV>,
    pub last_line: usize,
    pub last_file: Option<Seq<char>>,
}

impl View for QueryState {
    type V = QueryStateV;

    open spec fn view(&self) -> QueryStateV {
        QueryStateV {
            pending: snippet_views(self.pending_context_lines@),
            pending_file: opt_string_view(self.pending_context_file),
            current: match self.current_block {
                Some(b) => Some(b@),
                None => None,
            },
            last_line: self.last_rendered_line,
            last_file: opt_string_view(self.last_rendered_file),
        }
    }
}

/// The state after a context line, and the block it ends, if any: a line
/// of another file ends the current block; context after a match joins its
/// block when within `after` lines of it; every context line is kept for
/// the next match.
pub open spec fn context_step(st: QueryStateV, file: Seq<char>, n: usize, content: Seq<char>, after: usize)
    -> (QueryStateV, Option<RenderedBlockV>)
{
    let line = SnippetLineV { line_number: n, content: content, is_match: false };
    let ends = st.current matches Some(b) && b.file != file;
    let st1 = if ends { QueryStateV { current: None, pending: Seq::empty(), ..st } } else { st };
    let st2 = if st1.pending_file != Some(file) {
        QueryStateV { pending: Seq::empty(), pending_file: Some(file), ..st1 }
    } else {
        st1
    };
    let st3 = match st2.current {
        Some(b) => if b.file == file && n > b.match_line_number && n - b.match_line_number <= after {
            QueryStateV { current: Some(RenderedBlockV { code_lines: b.code_lines.push(line), ..b }), ..st2 }
        } else {
            st2
        },
        None => st2,
    };
    (QueryStateV { pending: st3.pending.push(line), ..st3 }, if ends { st.current } else { None })
}

/// The context lines that lead into a match at line `n`: those at most
/// `before` lines above it, not shown already.
pub open spec fn leading_context(pending: Seq<SnippetLineV>, n: usize, before: usize, file: Seq<char>,
    last_file: Option<Seq<char>>, last_line: usize) -> Seq<SnippetLineV>
    decreases pending.len(),
{
    if pending.len() == 0 {
        Seq::empty()
    } else {
        let rest = leading_context(pending.drop_last(), n, before, file, last_file, last_line);
        let c = pending.last();
        if c.line_number < n && n - c.line_number <= before && !(last_file == Some(file) && c.line_number <= last_line) {
            rest.push(c)
        } else {
            rest
        }
    }
}

/// The state after a match, and the blocks it ends: the current block
/// ends; a new block starts with the leading context and the match.
pub open spec fn match_step(st: QueryStateV, file: Seq<char>, n: usize, content: Seq<char>, before: usize,
    location: Seq<char>, detail_lines: Seq<Seq<char>>) -> (QueryStateV, Seq<RenderedBlockV>)
{
    let ends = st.current matches Some(b) && b.file != file;
    let st1 = if ends { QueryStateV { current: None, pending: Seq::empty(), ..st } } else { st };
    let out1 = if ends { seq![st.current.unwrap()] } else { Seq::empty() };
    let (last_line, last_file) = match st1.current {
        Some(b) => if b.code_lines.len() > 0 {
            (b.code_lines.last().line_number, Some(b.file))
        } else {
            (st1.last_line, st1.last_file)
        },
        None => (st1.last_line, st1.last_file),
    };
    let leading = leading_context(st1.pending, n, before, file, last_file, last_line);
    let out2 = match st1.current { Some(b) => seq![b], None => Seq::empty() };
    let block = RenderedBlockV {
        file: file,
        location: location,
        match_line_number: n,
        code_lines: leading.push(SnippetLineV { line_number: n, content: content, is_match: true }),
        detail_lines: detail_lines,
    };
    (QueryStateV {
        pending: Seq::empty(),
        pending_file: Some(file),
        current: Some(block),
        last_line: last_line,
        last_file: last_file,
    }, out1 + out2)
}

/// An event of a search as `QueryState` takes it: a context line, or a
/// match with the header and detail lines it shows.
pub enum QueryEventV {
    Context { file: Seq<char>, line: usize, content: Seq<char> },
    Match { file: Seq<char>, line: usize, content: Seq<char>, location: Seq<char>, details: Seq<Seq<char>> },
}

/// The state after some events, and the blocks they completed.
pub open spec fn run_events(st: QueryStateV, events: Seq<QueryEventV>, before: usize, after: usize)
    -> (QueryStateV, Seq<RenderedBlockV>)
    decreases events.len(),
{
    if events.len() == 0 {
        (st, Seq::empty())
    } else {
        let (s1, out1) = run_events(st, events.drop_last(), before, after);
        match events.last() {
            QueryEventV::Context { file, line, content } => {
                let (s2, b) = context_step(s1, file, line, content, after);
                (s2, out1 + match b { Some(x) => seq![x], None => Seq::empty() })
            },
            QueryEventV::Match { file, line, content, location, details } => {
                let (s2, bs) = match_step(s1, file, line, content, before, location, details);
                (s2, out1 + bs)
            },
        }
    }
}

/// The file and line of each match among some events, in order.
pub open spec fn match_positions(events: Seq<QueryEventV>) -> Seq<(Seq<char>, usize)>
    decreases events.len(),
{
    if events.len() == 0 {
        Seq::empty()
    } else {
        let rest = match_positions(events.drop_last());
        match events.last() {
            QueryEventV::Match { file, line, .. } => rest.push((file, line)),
            QueryEventV::Context { .. } => rest,
        }
    }
}

/// The file and match line of each block, in order.
pub open spec fn block_positions(blocks: Seq<RenderedBlockV>) -> Seq<(Seq<char>, usize)> {
    blocks.map_values(|b: RenderedBlockV| (b.file, b.match_line_number))
}

/// The blocks printed so far with the one being built, if any.
pub open spec fn shown_blocks(st: QueryStateV, out: Seq<RenderedBlockV>) -> Seq<RenderedBlockV> {
    match st.current {
        Some(b) => out.push(b),
        None => out,
    }
}

/// Law: every match is shown once, as a block of its own, in the order the
/// search reported it. Whatever the context lines around them, the blocks
/// that the events complete, with the one that `finish` hands out, stand
/// for the matches one for one.
pub proof fn law_each_match_one_block(events: Seq<QueryEventV>, before: usize, after: usize)
    ensures
        ({
            let start = QueryStateV { pending: Seq::empty(), pending_file: None, current: None, last_line: 0,
                last_file: None };
            let (st, out) = run_events(start, events, before, after);
            block_positions(shown_blocks(st, out)) == match_positions(events)
        }),
    decreases events.len(),
{
    let start = QueryStateV { pending: Seq::empty(), pending_file: None, current: None, last_line: 0,
        last_file: None };
    if events.len() == 0 {
        assert(block_positions(shown_blocks(start, Seq::empty())) =~= Seq::<(Seq<char>, usize)>::empty());
    } else {
        law_each_match_one_block(events.drop_last(), before, after);
        let (s1, out1) = run_events(start, events.drop_last(), before, after);
        let prev = block_positions(shown_blocks(s1, out1));
        match events.last() {
            QueryEventV::Context { file, line, content } => {
                let (s2, b) = context_step(s1, file, line, content, after);
                let out2 = out1 + match b { Some(x) => seq![x], None => Seq::empty() };
                assert(block_positions(shown_blocks(s2, out2)) =~= prev);
            },
            QueryEventV::Match { file, line, content, location, details } => {
                let (s2, bs) = match_step(s1, file, line, content, before, location, details);
                let out2 = out1 + bs;
                assert(block_positions(shown_blocks(s2, out2)) =~= prev.push((file, line)));
            },
        }
    }
}

/// A line of a block lies near the block's match: it is the match line
/// itself, or a context line at most `before` lines above the match or at
/// most `after` lines below it.
pub open spec fn line_near_match(b: RenderedBlockV, l: SnippetLineV, before: usize, after: usize) -> bool {
    if l.is_match {
        l.line_number == b.match_line_number
    } else {
        (b.match_line_number < l.line_number && l.line_number <= b.match_line_number + after)
        || (l.line_number < b.match_line_number && l.line_number + before >= b.match_line_number)
    }
}

/// Every line of the block lies near its match.
pub open spec fn block_near_match(b: RenderedBlockV, before: usize, after: usize) -> bool {
    forall|i: int| 0 <= i < b.code_lines.len() ==> line_near_match(b, #[trigger] b.code_lines[i], before, after)
}

/// No context line kept for the next match is a match line.
pub open spec fn pending_context_only(pending: Seq<SnippetLineV>) -> bool {
    forall|i: int| 0 <= i < pending.len() ==> !(#[trigger] pending[i]).is_match
}

/// The lines leading into a match come from the kept context lines and lie
/// at most `before` lines above the match.
proof fn lemma_leading_context_near(pending: Seq<SnippetLineV>, n: usize, before: usize, file: Seq<char>,
    last_file: Option<Seq<char>>, last_line: usize)
    requires
        pending_context_only(pending),
    ensures
        forall|i: int| 0 <= i < leading_context(pending, n, before, file, last_file, last_line).len() ==> {
            let l = #[trigger] leading_context(pending, n, before, file, last_file, last_line)[i];
            !l.is_match && l.line_number < n && l.line_number + before >= n
        },
    decreases pending.len(),
{
    if pending.len() > 0 {
        let rest = pending.drop_last();
        assert forall|i: int| 0 <= i < rest.len() implies !(#[trigger] rest[i]).is_match by {
            assert(rest[i] == pending[i]);
        }
        lemma_leading_context_near(rest, n, before, file, last_file, last_line);
        assert(!pending[pending.len() - 1].is_match);
        let r = leading_context(rest, n, before, file, last_file, last_line);
        let cur = leading_context(pending, n, before, file, last_file, last_line);
        let c = pending.last();
        if c.line_number < n && n - c.line_number <= before && !(last_file == Some(file) && c.line_number <= last_line) {
            assert(cur == r.push(c));
            assert forall|i: int| 0 <= i < cur.len() implies {
                let l = #[trigger] cur[i];
                !l.is_match && l.line_number < n && l.line_number + before >= n
            } by {
                if i < r.len() {
                    assert(cur[i] == r[i]);
                }
            }
        } else {
            assert(cur == r);
        }
    }
}

/// What every state that the events reach keeps: the kept context lines
/// are context lines, and the block being built, like every block
/// completed, has all its lines near its match.
proof fn lemma_run_events_near(events: Seq<QueryEventV>, before: usize, after: usize)
    ensures
        ({
            let start = QueryStateV { pending: Seq::empty(), pending_file: None, current: None, last_line: 0,
                last_file: None };
            let (st, out) = run_events(start, events, before, after);
            &&& pending_context_only(st.pending)
            &&& st.current matches Some(b) ==> block_near_match(b, before, after)
            &&& forall|k: int| 0 <= k < out.len() ==> block_near_match(#[trigger] out[k], before, after)
        }),
    decreases events.len(),
{
    let start = QueryStateV { pending: Seq::empty(), pending_file: None, current: None, last_line: 0,
        last_file: None };
    if events.len() > 0 {
        lemma_run_events_near(events.drop_last(), before, after);
        let (s1, out1) = run_events(start, events.drop_last(), before, after);
        match events.last() {
            QueryEventV::Context { file, line, content } => {
                let (s2, b) = context_step(s1, file, line, content, after);
                let out2 = out1 + match b { Some(x) => seq![x], None => Seq::empty() };
                assert(run_events(start, events, before, after) == (s2, out2));
                let l = SnippetLineV { line_number: line, content: content, is_match: false };
                let ends = s1.current matches Some(cb) && cb.file != file;
                let st1 = if ends { QueryStateV { current: None, pending: Seq::empty(), ..s1 } } else { s1 };
                let st2 = if st1.pending_file != Some(file) {
                    QueryStateV { pending: Seq::empty(), pending_file: Some(file), ..st1 }
                } else {
                    st1
                };
                assert(pending_context_only(st2.pending));
                assert(s2.pending == st2.pending.push(l));
                assert forall|i: int| 0 <= i < s2.pending.len() implies !(#[trigger] s2.pending[i]).is_match by {
                    if i < st2.pending.len() {
                        assert(s2.pending[i] == st2.pending[i]);
                    }
                }
                if let Some(cb) = st2.current {
                    if cb.file == file && line > cb.match_line_number && line - cb.match_line_number <= after {
                        let nb = RenderedBlockV { code_lines: cb.code_lines.push(l), ..cb };
                        assert(s2.current == Some(nb));
                        assert forall|i: int| 0 <= i < nb.code_lines.len() implies line_near_match(nb,
                            #[trigger] nb.code_lines[i], before, after) by {
                            if i < cb.code_lines.len() {
                                assert(nb.code_lines[i] == cb.code_lines[i]);
                                assert(line_near_match(cb, cb.code_lines[i], before, after));
                            }
                        }
                    }
                }
                assert forall|k: int| 0 <= k < out2.len() implies block_near_match(#[trigger] out2[k], before, after) by {
                    if k < out1.len() {
                        assert(out2[k] == out1[k]);
                    }
                }
            },
            QueryEventV::Match { file, line, content, location, details } => {
                let (s2, bs) = match_step(s1, file, line, content, before, location, details);
                let out2 = out1 + bs;
                assert(run_events(start, events, before, after) == (s2, out2));
                let ends = s1.current matches Some(cb) && cb.file != file;
                let st1 = if ends { QueryStateV { current: None, pending: Seq::empty(), ..s1 } } else { s1 };
                let (last_line, last_file) = match st1.current {
                    Some(cb) => if cb.code_lines.len() > 0 {
                        (cb.code_lines.last().line_number, Some(cb.file))
                    } else {
                        (st1.last_line, st1.last_file)
                    },
                    None => (st1.last_line, st1.last_file),
                };
                assert(pending_context_only(st1.pending));
                lemma_leading_context_near(st1.pending, line, before, file, last_file, last_line);
                let leading = leading_context(st1.pending, line, before, file, last_file, last_line);
                let nb = s2.current->0;
                assert(nb.code_lines == leading.push(SnippetLineV { line_number: line, content: content, is_match: true }));
                assert(nb.match_line_number == line);
                assert forall|i: int| 0 <= i < nb.code_lines.len() implies line_near_match(nb,
                    #[trigger] nb.code_lines[i], before, after) by {
                    if i < leading.len() {
                        assert(nb.code_lines[i] == leading[i]);
                    }
                }
                assert(s2.pending.len() == 0);
                assert forall|k: int| 0 <= k < out2.len() implies block_near_match(#[trigger] out2[k], before, after) by {
                    if k < out1.len() {
                        assert(out2[k] == out1[k]);
                    }
                }
            },
        }
    }
}

/// Law: every line a block shows lies near the block's match. A context
/// line joins a match's block only when it lies at most `after` lines below
/// that match, and a context line leading into a match at most `before`
/// lines above it; the lines leading into the next match are never shown
/// under the previous one. This holds of every block the events complete
/// and of the one that `finish` hands out.
pub proof fn law_block_lines_near_match(events: Seq<QueryEventV>, before: usize, after: usize)
    ensures
        ({
            let start = QueryStateV { pending: Seq::empty(), pending_file: None, current: None, last_line: 0,
                last_file: None };
            let (st, out) = run_events(start, events, before, after);
            forall|k: int| 0 <= k < shown_blocks(st, out).len()
                ==> block_near_match(#[trigger] shown_blocks(st, out)[k], before, after)
        }),
{
    lemma_run_events_near(events, before, after);
    let start = QueryStateV { pending: Seq::empty(), pending_file: None, current: None, last_line: 0,
        last_file: None };
    let (st, out) = run_events(start, events, before, after);
    assert forall|k: int| 0 <= k < shown_blocks(st, out).len()
        implies block_near_match(#[trigger] shown_blocks(st, out)[k], before, after) by {
        if k < out.len() {
            assert(shown_blocks(st, out)[k] == out[k]);
        }
    }
}

impl QueryState {
    /// The state before any event.
    pub fn new() -> (res: Self)
        ensures
            res@ == (QueryStateV { pending: Seq::empty(), pending_file: None, current: None, last_line: 0, last_file: None }),
    {
        let res = QueryState {
            pending_context_lines: Vec::new(),
            pending_context_file: None,
            current_block: None,
            last_rendered_line: 0,
            last_rendered_file: None,
        };
        assert(res@ =~= (QueryStateV { pending: Seq::empty(), pending_file: None, current: None, last_line: 0, last_file: None }));
        res
    }

    /// A context line from ripgrep.
    pub fn on_context(&mut self, file: &str, line_number: usize, content: &str, after: usize) -> (res: Option<RenderedBlock>)
        ensures
            final(self)@ == context_step(old(self)@, file@, line_number, content@, after).0,
            match res {
                Some(b) => context_step(old(self)@, file@, line_number, content@, after).1 == Some(b@),
                None => context_step(old(self)@, file@, line_number, content@, after).1 is None,
            },
    {
        let ghost st = self@;
        let line = SnippetLine { line_number, content: owned(content), is_match: false };
        let ends = match &self.current_block {
            Some(b) => !str_eq(b.file.as_str(), file),
            None => false,
        };
        let mut flushed: Option<RenderedBlock> = None;
        if ends {
            flushed = self.current_block.take();
            self.pending_context_lines = Vec::new();
        }
        let same_file = match &self.pending_context_file {
            Some(f) => str_eq(f.as_str(), file),
            None => false,
        };
        if !same_file {
            self.pending_context_lines = Vec::new();
            self.pending_context_file = Some(owned(file));
        }
        let ghost st2 = self@;
        match &mut self.current_block {
            Some(b) => {
                if str_eq(b.file.as_str(), file) && line_number > b.match_line_number
                    && line_number - b.match_line_number <= after {
                    let ghost before = b.code_lines@;
                    b.code_lines.push(copy_snippet_line(&line));
                    assert(snippet_views(b.code_lines@) =~= snippet_views(before).push(line@));
                }
            },
            None => {},
        }
        let ghost before = self.pending_context_lines@;
        self.pending_context_lines.push(line);
        assert(snippet_views(self.pending_context_lines@) =~= snippet_views(before).push(line@));
        proof {
            assert(snippet_views(Seq::<SnippetLine>::empty()) =~= Seq::<SnippetLineV>::empty());
        }
        assert(self@ =~= context_step(st, file@, line_number, content@, after).0);
        flushed
    }
}

/// The context lines that lead into a match, in order.
fn select_leading(pending: &Vec<SnippetLine>, n: usize, before: usize, file: &str, last_file: &Option<String>,
    last_line: usize) -> (res: Vec<SnippetLine>)
    ensures
        snippet_views(res@) == leading_context(snippet_views(pending@), n, before, file@,
            opt_string_view(*last_file), last_line),
{
    let ghost all = snippet_views(pending@);
    let shown_file = match last_file {
        Some(f) => str_eq(f.as_str(), file),
        None => false,
    };
    let mut res: Vec<SnippetLine> = Vec::new();
    let mut i: usize = 0;
    while i < pending.len()
        invariant
            i <= pending@.len(),
            all == snippet_views(pending@),
            shown_file == (opt_string_view(*last_file) == Some(file@)),
            snippet_views(res@) == leading_context(all.take(i as int), n, before, file@, opt_string_view(*last_file), last_line),
        decreases pending@.len() - i,
    {
        assert(all.take(i + 1).drop_last() =~= all.take(i as int));
        assert(all.take(i + 1).last() == pending@[i as int]@);
        let c = &pending[i];
        if c.line_number < n && n - c.line_number <= before && !(shown_file && c.line_number <= last_line) {
            let ghost prev = res@;
            res.push(copy_snippet_line(c));
            assert(snippet_views(res@) =~= snippet_views(prev).push(c@));
        }
        i = i + 1;
    }
    assert(all.take(pending@.len() as int) =~= all);
    res
}

impl QueryState {
    /// A match from ripgrep, with the header and the detail lines it shows.
    pub fn on_match(&mut self, file: &str, line_number: usize, content: String, before: usize,
        location: String, detail_lines: Vec<String>) -> (res: Vec<RenderedBlock>)
        ensures
            final(self)@ == match_step(old(self)@, file@, line_number, content@, before, location@,
                strings_view(detail_lines@)).0,
            res@.map_values(|b: RenderedBlock| b@) == match_step(old(self)@, file@, line_number, content@, before,
                location@, strings_view(detail_lines@)).1,
    {
        let ghost st = self@;
        let mut out: Vec<RenderedBlock> = Vec::new();
        let ends = match &self.current_block {
            Some(b) => !str_eq(b.file.as_str(), file),
            None => false,
        };
        if ends {
            match self.current_block.take() {
                Some(b) => out.push(b),
                None => {},
            }
            self.pending_context_lines = Vec::new();
        }
        proof {
            assert(snippet_views(Seq::<SnippetLine>::empty()) =~= Seq::<SnippetLineV>::empty());
        }
        let ghost st1 = self@;
        match &self.current_block {
            Some(b) => {
                if b.code_lines.len() > 0 {
                    let last = b.code_lines.len() - 1;
                    self.last_rendered_line = b.code_lines[last].line_number;
                    self.last_rendered_file = Some(b.file.clone());
                }
            },
            None => {},
        }
        let leading = select_leading(&self.pending_context_lines, line_number, before, file,
            &self.last_rendered_file, self.last_rendered_line);
        match self.current_block.take() {
            Some(b) => out.push(b),
            None => {},
        }
        self.pending_context_lines = Vec::new();
        self.pending_context_file = Some(owned(file));
        let mut code_lines = leading;
        let ghost lead = code_lines@;
        code_lines.push(SnippetLine { line_number, content, is_match: true });
        assert(snippet_views(code_lines@) =~= snippet_views(lead).push(
            SnippetLineV { line_number: line_number, content: content@, is_match: true }));
        self.current_block = Some(RenderedBlock {
            file: owned(file),
            location,
            match_line_number: line_number,
            code_lines,
            detail_lines,
        });
        assert(self@ =~= match_step(st, file@, line_number, content@, before, location@, strings_view(detail_lines@)).0);
        assert(out@.map_values(|b: RenderedBlock| b@) =~= match_step(st, file@, line_number, content@, before,
            location@, strings_view(detail_lines@)).1);
        out
    }

    /// The end of the search: the block being built, if any.
    pub fn finish(&mut self) -> (res: Option<RenderedBlock>)
        ensures
            final(self)@ == (QueryStateV { current: None, ..old(self)@ }),
            match res {
                Some(b) => old(self)@.current == Some(b@),
                None => old(self)@.current is None,
            },
    {
        let res = self.current_block.take();
        assert(self@ =~= (QueryStateV { current: None, ..old(self)@ }));
        res
    }
}

/// Whether ripgrep ended as a search should: with success, or with exit
/// code 1, which it gives when nothing matched.
pub fn rg_exit_ok(success: bool, code: Option<i32>) -> (res: bool)
    ensures
        res == (success || code == Some(1i32)),
{
    success || match code {
        Some(c) => c == 1,
        None => false,
    }
}

/// The options of a query.
pub struct QueryOptions<'a> {
    pub json_output: bool,
    pub compact: bool,
    pub repo: &'a str,
    pub search_paths: &'a [String],
    pub depth: usize,
    pub max_context: usize,
    pub include_tests: bool,
    pub include_test_callers: bool,
    pub pattern: &'a str,
    pub rg_args: &'a [String],
}

/// What the JSON form of a match says of its context: the callers listed
/// (test callers too when asked for), the references listed, and the
/// counts of those left out.
pub struct JsonContext {
    pub callers: Vec<CallerInfo>,
    pub hidden_callers: Option<usize>,
    pub hidden_test_callers: Option<usize>,
    pub references: Vec<ReferenceInfo>,
    pub hidden_references: Option<usize>,
    pub hidden_test_references: Option<usize>,
}

/// A count, when it is not zero.
pub open spec fn when_nonzero(n: usize) -> Option<usize> {
    if n > 0 { Some(n) } else { None }
}

impl JsonContext {
    /// The JSON context of a match.
    pub fn new(callers: &CallerSplit, references: &ReferenceSplit, m: &MatchContext, include_test_callers: bool)
        -> (res: JsonContext)
        requires
            m.hidden_test_references <= references.test@.len(),
            2 * references.test@.len() <= usize::MAX,
        ensures
            caller_views(res.callers@) == if include_test_callers {
                caller_views(m.primary_callers@) + caller_views(m.test_callers@)
            } else {
                caller_views(m.primary_callers@)
            },
            res.hidden_callers == when_nonzero(m.hidden_callers),
            res.hidden_test_callers == if callers.test@.len() == 0 {
                None
            } else if include_test_callers {
                Some(m.hidden_test_callers)
            } else {
                Some(callers.test@.len() as usize)
            },
            reference_views(res.references@) == reference_views(m.primary_references@),
            res.hidden_references == when_nonzero(m.hidden_references),
            res.hidden_test_references == if references.test@.len() == 0 {
                None
            } else {
                Some((references.test@.len() + m.hidden_test_references) as usize)
            },
    {
        let mut listed = copy_callers(&m.primary_callers);
        if include_test_callers {
            let mut tests = copy_callers(&m.test_callers);
            let ghost a = listed@;
            let ghost b = tests@;
            listed.append(&mut tests);
            assert(caller_views(listed@) =~= caller_views(a) + caller_views(b));
        }
        let hidden_test_callers = if callers.test.len() == 0 {
            None
        } else if include_test_callers {
            Some(m.hidden_test_callers)
        } else {
            Some(callers.test.len())
        };
        let hidden_test_references = if references.test.len() == 0 {
            None
        } else {
            Some(references.test.len() + m.hidden_test_references)
        };
        JsonContext {
            callers: listed,
            hidden_callers: if m.hidden_callers > 0 { Some(m.hidden_callers) } else { None },
            hidden_test_callers,
            references: copy_references(&m.primary_references),
            hidden_references: if m.hidden_references > 0 { Some(m.hidden_references) } else { None },
            hidden_test_references,
        }
    }
}

} // verus!
