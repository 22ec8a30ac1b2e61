use vstd::prelude::*;
use vstd::string::StringExecFns;

verus! {

/// Why a directory operation was refused.
///
/// Every variant carries the name or path segment that caused the refusal,
/// so callers can report it.
#[derive(Debug, Clone, PartialEq, Eq)]
pub enum DirError {
    /// The proposed directory name contains the path separator `/`.
    SlashInName(String),
    /// A sibling directory with the same name already exists.
    DirExists(String),
    /// A path segment matched no child of the directory reached so far.
    InvalidChild(String),
}

impl DirError {
    /// The offending name or path segment carried by this error.
    pub fn offender(&self) -> (s: &String)
        ensures
            (self matches DirError::SlashInName(n) ==> s == n),
            (self matches DirError::DirExists(n) ==> s == n),
            (self matches DirError::InvalidChild(n) ==> s == n),
    {
        match self {
            DirError::SlashInName(n) => n,
            DirError::DirExists(n) => n,
            DirError::InvalidChild(n) => n,
        }
    }

    /// A human-readable description, in the form `<offender>: <reason>`.
    pub fn message(&self) -> (s: String)
        ensures
            (self matches DirError::SlashInName(n) ==> s@ == n@ + ": slash in name is invalid"@),
            (self matches DirError::DirExists(n) ==> s@ == n@ + ": directory exists"@),
            (self matches DirError::InvalidChild(n) ==> s@ == n@ + ": invalid element in path"@),
    {
        match self {
            DirError::SlashInName(n) => {
                let mut s = n.clone();
                s.append(": slash in name is invalid");
                s
            },
            DirError::DirExists(n) => {
                let mut s = n.clone();
                s.append(": directory exists");
                s
            },
            DirError::InvalidChild(n) => {
                let mut s = n.clone();
                s.append(": invalid element in path");
                s
            },
        }
    }
}

} // verus!
