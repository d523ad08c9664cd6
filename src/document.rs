use vstd::prelude::*;
use crate::error::{described, io_error, invalid_path, not_found, DocError};

verus! {

/// An opened document: its absolute path and its text.
#[derive(Debug)]
pub struct FileContent {
    pub path: String,
    pub content: String,
}

/// Decides whether the resolved path may be opened, given whether the
/// caller found a regular file there: the path comes back where it did,
/// a `NotFound` error naming the path where it did not.
pub fn check_found(resolved: String, is_file: bool) -> (r: Result<String, DocError>)
    ensures
        r is Ok <==> is_file,
        r matches Ok(p) ==> p@ == resolved@,
        r matches Err(e) ==> (e matches DocError::NotFound(m) && m@ == described(
            "File not found"@,
            resolved@,
        )),
{
    if is_file {
        Ok(resolved)
    } else {
        Err(not_found(resolved.as_str()))
    }
}

/// The document at `resolved` once its text was read: the text with its
/// path, or an `Io` error with the reader's cause.
pub fn document_from_read(resolved: String, read: Result<String, String>) -> (r: Result<
    FileContent,
    DocError,
>)
    ensures
        r is Ok <==> read is Ok,
        r matches Ok(d) ==> (d.path@ == resolved@ && (read matches Ok(c) && d.content@ == c@)),
        r matches Err(e) ==> (read matches Err(c) && (e matches DocError::Io(m) && m@ == described(
            "Failed to read file"@,
            c@,
        ))),
{
    match read {
        Ok(content) => Ok(FileContent { path: resolved, content }),
        Err(cause) => Err(io_error("Failed to read file", cause.as_str())),
    }
}

/// The outcome of saving a document, given what the write returned.
pub fn save_outcome(written: Result<(), String>) -> (r: Result<(), DocError>)
    ensures
        r is Ok <==> written is Ok,
        r matches Err(e) ==> (written matches Err(c) && (e matches DocError::Io(m) && m@
            == described("Failed to save file"@, c@))),
{
    match written {
        Ok(()) => Ok(()),
        Err(cause) => Err(io_error("Failed to save file", cause.as_str())),
    }
}

/// The path a file chooser returned, once converted to text: kept where the
/// conversion succeeded, an `Invalid` error with its cause where it did not.
pub fn chosen_path(converted: Result<String, String>) -> (r: Result<String, DocError>)
    ensures
        r is Ok <==> converted is Ok,
        r matches Ok(p) ==> (converted matches Ok(q) && p@ == q@),
        r matches Err(e) ==> (converted matches Err(c) && (e matches DocError::Invalid(m) && m@
            == described("Invalid file path"@, c@))),
{
    match converted {
        Ok(p) => Ok(p),
        Err(cause) => Err(invalid_path(cause.as_str())),
    }
}

} // verus!
