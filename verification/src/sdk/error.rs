use vstd::prelude::*;
use crate::text::concat;

verus! {

/// What can go wrong when a graph is loaded.
#[derive(Debug)]
pub enum Error {
    RepoNotFound { path: String },
    NotGitRepo { path: String },
    IndexBuild { reason: String },
    ParseError { path: String },
    Io(String),
    Internal(String),
}

/// The message shown for an error.
pub open spec fn error_message(e: &Error) -> Seq<char> {
    match e {
        Error::RepoNotFound { path } => "repository not found: "@ + path@,
        Error::NotGitRepo { path } => "not a git repository: "@ + path@,
        Error::IndexBuild { reason } => "failed to build call graph: "@ + reason@,
        Error::ParseError { path } => "failed to parse source file: "@ + path@,
        Error::Io(message) => message@,
        Error::Internal(message) => "internal error: "@ + message@,
    }
}

impl Error {
    /// The message shown for this error.
    pub fn message(&self) -> (res: String)
        ensures
            res@ == error_message(self),
    {
        match self {
            Error::RepoNotFound { path } => concat("repository not found: ", path.as_str()),
            Error::NotGitRepo { path } => concat("not a git repository: ", path.as_str()),
            Error::IndexBuild { reason } => concat("failed to build call graph: ", reason.as_str()),
            Error::ParseError { path } => concat("failed to parse source file: ", path.as_str()),
            Error::Io(message) => message.clone(),
            Error::Internal(message) => concat("internal error: ", message.as_str()),
        }
    }

    /// An internal error carrying the message of an error from elsewhere.
    pub fn from_anyhow(message: String) -> (res: Error)
        ensures
            res == Error::Internal(message),
    {
        Error::Internal(message)
    }
}

} // verus!
