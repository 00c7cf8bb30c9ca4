//! Turning the located entry file's path into a `file://` URL.
//!
//! The conversion itself is done by the `url` crate; what it produces
//! for a given path is named [`file_url_of`].  The library's part is the
//! decision around it, stated exactly: an absolute path converts, a
//! relative one is rejected with the offending path in the error.

use vstd::prelude::*;

verus! {

use vstd::string::StringExecFns;
use crate::error::ShellError;
use crate::paths::is_absolute;

/// The text of the `file://` URL that the `url` crate serialises for an
/// absolute path: a function of the path's characters alone.
pub uninterp spec fn file_url_of(path: Seq<char>) -> Seq<char>;

/// Relies on `url::Url::from_file_path`, with the crate's `From<Url> for
/// String` reading the serialisation back out.  On this platform the
/// conversion fails exactly when the path is not absolute, and on
/// success it serialises the scheme `file`, an empty host and the
/// percent-encoded components, so the text always begins with
/// `file:///`; the whole text is a function of the path alone, named
/// [`file_url_of`].
#[verifier::external_body]
fn url_string_from_file_path(path: &str) -> (r: Option<String>)
    ensures
        r is Some <==> is_absolute(path@),
        r matches Some(u) ==> u@ == file_url_of(path@) && u@.len() >= 8 && u@.subrange(0, 8)
            == "file:///"@,
{
    match url::Url::from_file_path(path) {
        Ok(u) => Some(String::from(u)),
        Err(()) => None,
    }
}

/// Converts an absolute filesystem path to a `file://` URL.
///
/// Succeeds exactly on absolute paths, returning the URL text the `url`
/// crate serialises for the path, which always carries the `file`
/// scheme.  A relative path is rejected with
/// [`ShellError::InvalidPathForUrl`] holding the path itself.
pub fn file_url_from_path(path: &str) -> (r: Result<String, ShellError>)
    ensures
        r is Ok <==> is_absolute(path@),
        r matches Ok(u) ==> u@ == file_url_of(path@) && u@.len() >= 8 && u@.subrange(0, 8)
            == "file:///"@,
        r matches Err(e) ==> (e matches ShellError::InvalidPathForUrl(p) && p@ == path@),
{
    match url_string_from_file_path(path) {
        Some(u) => Ok(u),
        None => Err(ShellError::InvalidPathForUrl(String::from_str(path))),
    }
}

} // verus!
