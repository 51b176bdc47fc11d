use vstd::prelude::*;
use crate::analysis::codepaths::types::{opt_string_view, strings_view};

verus! {

/// Opaque identifier for a function node in the call graph.
///
/// Obtained from `Graph::function_at` or the other lookups of a `Graph`,
/// and passed to its query methods.
#[derive(Debug, Clone, Copy, PartialEq, Eq, Structural, Hash)]
pub struct NodeId(pub usize);

impl NodeId {
    pub open spec fn index(self) -> usize {
        self.0
    }
}

/// A function that calls the queried function.
#[derive(Debug)]
pub struct Caller {
    pub file: String,
    pub function: String,
    pub qualified_name: String,
    pub line: usize,
    pub is_test: bool,
    /// How many call levels away from the target (1 = direct caller).
    pub depth: usize,
    pub conditions: Vec<String>,
}

#[verifier::ext_equal]
pub struct CallerV {
    pub file: Seq<char>,
    pub function: Seq<char>,
    pub qualified_name: Seq<char>,
    pub line: usize,
    pub is_test: bool,
    pub depth: usize,
    pub conditions: Seq<Seq<char>>,
}

impl View for Caller {
    type V = CallerV;

    open spec fn view(&self) -> CallerV {
        CallerV {
            file: self.file@,
            function: self.function@,
            qualified_name: self.qualified_name@,
            line: self.line,
            is_test: self.is_test,
            depth: self.depth,
            conditions: strings_view(self.conditions@),
        }
    }
}

/// A function that references the queried function (e.g., passes it as an argument).
#[derive(Debug)]
pub struct Reference {
    pub file: String,
    pub function: String,
    pub qualified_name: String,
    pub line: usize,
    pub is_test: bool,
    pub context: Option<String>,
}

#[verifier::ext_equal]
pub struct ReferenceV {
    pub file: Seq<char>,
    pub function: Seq<char>,
    pub qualified_name: Seq<char>,
    pub line: usize,
    pub is_test: bool,
    pub context: Option<Seq<char>>,
}

impl View for Reference {
    type V = ReferenceV;

    open spec fn view(&self) -> ReferenceV {
        ReferenceV {
            file: self.file@,
            function: self.function@,
            qualified_name: self.qualified_name@,
            line: self.line,
            is_test: self.is_test,
            context: opt_string_view(self.context),
        }
    }
}

} // verus!
