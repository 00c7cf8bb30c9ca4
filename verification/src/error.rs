//! The failures that the startup pipeline can report.

use vstd::prelude::*;

verus! {

use vstd::string::StringExecFns;

/// Everything that can go wrong before a window is opened.
///
/// Every failure is surfaced immediately to the caller; nothing is retried
/// or recovered, since any failure here means the application cannot start.
#[derive(Debug, PartialEq, Eq)]
pub enum ShellError {
    /// The operating system could not report the current executable's path.
    ExecutableLookupFailure,
    /// The executable path has no containing directory.
    NoParentDirectory,
    /// `index.html` was not found within the bounded upward search.
    AssetNotFound,
    /// The given path (held here) could not be turned into a `file://` URL.
    InvalidPathForUrl(String),
}

impl ShellError {
    /// The one-line diagnostic for this failure.
    pub open spec fn message_spec(&self) -> Seq<char> {
        match self {
            ShellError::ExecutableLookupFailure => "Unable to read executable path"@,
            ShellError::NoParentDirectory => "Executable must reside within a directory"@,
            ShellError::AssetNotFound => "Unable to locate index.html next to the executable. Ensure the assets shipped with the app are kept together."@,
            ShellError::InvalidPathForUrl(p) => "Failed to convert \""@ + p@ + "\" to a file:// URL"@,
        }
    }

    /// Renders the human-readable diagnostic line for this failure.
    pub fn message(&self) -> (r: String)
        ensures
            r@ == self.message_spec(),
    {
        match self {
            ShellError::ExecutableLookupFailure => String::from_str("Unable to read executable path"),
            ShellError::NoParentDirectory => String::from_str("Executable must reside within a directory"),
            ShellError::AssetNotFound => String::from_str("Unable to locate index.html next to the executable. Ensure the assets shipped with the app are kept together."),
            ShellError::InvalidPathForUrl(p) => {
                let mut s = String::from_str("Failed to convert \"");
                s.append(p.as_str());
                s.append("\" to a file:// URL");
                proof {
                    assert(s@ =~= self.message_spec());
                }
                s
            },
        }
    }
}

} // verus!
