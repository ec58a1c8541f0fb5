//! Where the files are: the directories that are read, and the pages and
//! tables that are written.

use crate::names::{file_stem, strip_extension};
use vstd::prelude::*;
use vstd::string::*;

verus! {

/// The directory that holds the result files.
pub const RESULTS_DIRECTORY: &'static str = "results";

/// The directory that holds the logos.
pub const LOGO_DIRECTORY: &'static str = "public/results/logos";

/// The directory that the pages are written to.
pub const PAGES_DIRECTORY: &'static str = "public/results";

/// The file that lists the canonical events.
pub const EVENTS_TABLE: &'static str = "public/results/events.csv";

/// The file that lists the canonical schools.
pub const SCHOOLS_TABLE: &'static str = "public/results/schools.csv";

/// The index of the result pages.
pub const INDEX_PAGE: &'static str = "public/results/index.html";

/// The directory of the result pages, with the `/` that ends it.
pub open spec fn pages_directory() -> Seq<char> {
    "public/results/"@
}

/// The extension of a result page, with the `.` that starts it.
pub open spec fn page_extension() -> Seq<char> {
    ".html"@
}

/// The path of the page of a result file: in the directory of the pages, the
/// name of the file with `.html` in place of its extension.
pub open spec fn page_path(source_file_name: Seq<char>) -> Seq<char> {
    pages_directory() + file_stem(source_file_name) + page_extension()
}

/// The path of the page of a result file.
pub fn result_page_path(source_file_name: &str) -> (path: String)
    ensures
        path@ == page_path(source_file_name@),
{
    let mut path = String::from_str("public/results/");
    path.append(strip_extension(source_file_name));
    path.append(".html");
    path
}

} // verus!
