use vstd::prelude::*;

verus! {

/// Why a document operation failed; each variant carries a readable message
/// naming the operation and its cause.
#[derive(Debug, Clone, PartialEq, Eq)]
pub enum DocError {
    /// The resolved path does not exist or is not a regular file.
    NotFound(String),
    /// Reading, writing or creating a directory failed.
    Io(String),
    /// A chosen path cannot be used as a path.
    Invalid(String),
}

/// A message made of what was being done and why it failed.
pub open spec fn described(context: Seq<char>, cause: Seq<char>) -> Seq<char> {
    context + ": "@ + cause
}

impl DocError {
    /// The message that the error carries.
    pub open spec fn text(&self) -> Seq<char> {
        match self {
            DocError::NotFound(m) => m@,
            DocError::Io(m) => m@,
            DocError::Invalid(m) => m@,
        }
    }

    /// The readable message of this error.
    pub fn message(&self) -> (r: String)
        ensures
            r@ == self.text(),
    {
        match self {
            DocError::NotFound(m) => m.clone(),
            DocError::Io(m) => m.clone(),
            DocError::Invalid(m) => m.clone(),
        }
    }
}

fn describe(context: &str, cause: &str) -> (r: String)
    ensures
        r@ == described(context@, cause@),
{
    let mut r = String::from_str(context);
    r.append(": ");
    r.append(cause);
    r
}

/// An input/output failure while `context` was being done.
pub fn io_error(context: &str, cause: &str) -> (r: DocError)
    ensures
        r matches DocError::Io(m) && m@ == described(context@, cause@),
{
    DocError::Io(describe(context, cause))
}

/// The error for a path that names no regular file.
pub fn not_found(resolved: &str) -> (r: DocError)
    ensures
        r matches DocError::NotFound(m) && m@ == described("File not found"@, resolved@),
{
    DocError::NotFound(describe("File not found", resolved))
}

/// The error for a chosen path that cannot be used as a path.
pub fn invalid_path(cause: &str) -> (r: DocError)
    ensures
        r matches DocError::Invalid(m) && m@ == described("Invalid file path"@, cause@),
{
    DocError::Invalid(describe("Invalid file path", cause))
}

} // verus!
