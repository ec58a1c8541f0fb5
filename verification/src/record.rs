//! The record of one tournament: what is known of a result file once it has
//! been read, dated and given a logo.

use crate::catalog::LogoCatalog;
use crate::history::DateAdded;
use crate::names::{result_identity, MalformedFileName};
use crate::pages::{page_path, result_page_path};
use crate::resolve::{get_logo_path_and_color, resolves_to, ResolvedLogo, ResolvedLogoView};
use crate::theme::{hex_code, ThemeColor};
use vstd::prelude::*;
use vstd::string::*;

verus! {

/// One tournament: the results of type `R` read from a result file, the name
/// of the file, the date on which it was added, and its logo and theme
/// colour. A record is made once and not changed.
pub struct TournamentRecord<R> {
    results: R,
    source_file_name: String,
    date_added: DateAdded,
    logo: ResolvedLogo,
}

impl<R> TournamentRecord<R> {
    /// The results.
    pub closed spec fn spec_results(&self) -> R {
        self.results
    }

    /// The name of the result file.
    pub closed spec fn spec_source_file_name(&self) -> Seq<char> {
        self.source_file_name@
    }

    /// The date on which the result file was added.
    pub closed spec fn spec_date_added(&self) -> DateAdded {
        self.date_added
    }

    /// The logo and the theme colour.
    pub closed spec fn spec_logo(&self) -> ResolvedLogoView {
        self.logo@
    }

    /// Makes the record of a result file: resolves its logo and theme colour
    /// in the catalog and keeps what it is given.
    pub fn new(
        results: R,
        source_file_name: &str,
        date_added: DateAdded,
        catalog: &LogoCatalog,
    ) -> (r: Result<TournamentRecord<R>, MalformedFileName>)
        ensures
            match result_identity(source_file_name@) {
                Ok(id) => {
                    &&& r is Ok
                    &&& r->Ok_0.spec_results() == results
                    &&& r->Ok_0.spec_source_file_name() == source_file_name@
                    &&& r->Ok_0.spec_date_added() == date_added
                    &&& resolves_to(catalog@, id, r->Ok_0.spec_logo())
                },
                Err(e) => r matches Err(f) && f == e,
            },
    {
        match get_logo_path_and_color(source_file_name, catalog) {
            Ok(logo) => Ok(
                TournamentRecord {
                    results,
                    source_file_name: source_file_name.to_owned(),
                    date_added,
                    logo,
                },
            ),
            Err(e) => Err(e),
        }
    }

    /// The results.
    pub fn results(&self) -> (r: &R)
        ensures
            *r == self.spec_results(),
    {
        &self.results
    }

    /// The name of the result file.
    pub fn source_file_name(&self) -> (name: &str)
        ensures
            name@ == self.spec_source_file_name(),
    {
        self.source_file_name.as_str()
    }

    /// The date on which the result file was added.
    pub fn date_added(&self) -> (date: DateAdded)
        ensures
            date == self.spec_date_added(),
    {
        self.date_added
    }

    /// Where the image of the logo is.
    pub fn logo_path(&self) -> (path: &str)
        ensures
            path@ == self.spec_logo().path,
    {
        self.logo.path.as_str()
    }

    /// The place of the logo in the catalog, or `None` for the default logo.
    pub fn logo_entry(&self) -> (entry: Option<usize>)
        ensures
            entry == self.spec_logo().entry,
    {
        self.logo.entry
    }

    /// The theme colour.
    pub fn theme_color(&self) -> (color: ThemeColor)
        ensures
            color == self.spec_logo().theme_color,
    {
        self.logo.theme_color
    }

    /// The theme colour as the page is given it: in hexadecimal notation.
    pub fn page_color(&self) -> (color: String)
        ensures
            color@ == hex_code(self.spec_logo().theme_color),
    {
        self.logo.theme_color.to_hex()
    }

    /// Where the page of the tournament is written.
    pub fn page_path(&self) -> (path: String)
        ensures
            path@ == page_path(self.spec_source_file_name()),
    {
        result_page_path(self.source_file_name.as_str())
    }
}

} // verus!
