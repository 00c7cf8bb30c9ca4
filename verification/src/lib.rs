//! Startup pipeline for a minimal desktop shell around a bundled web page.
//!
//! The library covers the three pure steps of the pipeline: taking the
//! directory that contains the running executable, locating the bundled
//! `index.html` in that directory or a bounded number of ancestors above
//! it, and converting the located path into a `file://` URL.  Opening the
//! window and running the event loop are left to the binary around it.

pub mod error;
pub mod fileurl;
pub mod locate;
pub mod paths;

pub use error::ShellError;
pub use fileurl::file_url_from_path;
pub use locate::{find_index_near, locate_entry_html, locate_from_outcomes, search_candidates};
pub use paths::directory_of;
