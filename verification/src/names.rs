//! The naming schemes: what the name of a logo file and the name of a result
//! file say.
//!
//! A logo is named `[<minimum year>_]<tournament name>[_<division>]`, a result
//! file `<year>-<rest of the date>_<tournament name>_<division>.<extension>`.

use crate::text::{
    find_first, find_last, first_index_of, is_first_index, is_last_index,
    last_index_of, lemma_first_index, lemma_last_index, parse_u32, read_u32, unsigned_digits,
};
use vstd::prelude::*;
use vstd::string::*;

verus! {

/// Why a file name does not fit its naming scheme.
#[derive(Clone, Copy, Debug, PartialEq, Eq, Structural)]
pub enum MalformedFileName {
    /// A result file name does not start with a year.
    MissingYear,
    /// A result file name has no tournament name and division behind its date.
    MissingSuffix,
    /// A logo file name is a year of one digit and nothing else.
    MissingName,
}

/// What the name of a logo file says.
#[derive(Debug)]
pub struct LogoName {
    /// The tournament that the logo belongs to.
    pub tournament_name: String,
    /// The division that the logo is for, or `None` where it is for all.
    pub division: Option<String>,
    /// The first year that the logo is for, or 0 where it is for all.
    pub minimum_year: u32,
}

/// The mathematical value of a `LogoName`.
pub struct LogoNameView {
    pub tournament_name: Seq<char>,
    pub division: Option<Seq<char>>,
    pub minimum_year: u32,
}

/// The view of an optional string.
pub open spec fn option_view(s: Option<String>) -> Option<Seq<char>> {
    match s {
        Some(t) => Some(t@),
        None => None,
    }
}

impl View for LogoName {
    type V = LogoNameView;

    open spec fn view(&self) -> LogoNameView {
        LogoNameView {
            tournament_name: self.tournament_name@,
            division: option_view(self.division),
            minimum_year: self.minimum_year,
        }
    }
}

/// The year, division and tournament of a result file.
#[derive(Debug)]
pub struct ResultFileIdentity {
    /// The year of the tournament.
    pub year: u32,
    /// The division of the tournament; empty where the name gives none.
    pub division: String,
    /// The tournament.
    pub tournament_name: String,
}

/// The mathematical value of a `ResultFileIdentity`.
pub struct ResultFileIdentityView {
    pub year: u32,
    pub division: Seq<char>,
    pub tournament_name: Seq<char>,
}

impl View for ResultFileIdentity {
    type V = ResultFileIdentityView;

    open spec fn view(&self) -> ResultFileIdentityView {
        ResultFileIdentityView {
            year: self.year,
            division: self.division@,
            tournament_name: self.tournament_name@,
        }
    }
}

/// What stands before the first `c` in `s`: all of `s` where it holds no `c`.
pub open spec fn before_first(s: Seq<char>, c: char) -> Seq<char> {
    s.take(first_index_of(s, c))
}

/// What stands behind the last `c` in `s`: all of `s` where it holds no `c`.
pub open spec fn after_last(s: Seq<char>, c: char) -> Seq<char> {
    s.skip(last_index_of(s, c) + 1)
}

/// What stands before the last `c` in `s`: nothing where it holds no `c`.
pub open spec fn before_last(s: Seq<char>, c: char) -> Seq<char> {
    if last_index_of(s, c) < 0 {
        Seq::empty()
    } else {
        s.take(last_index_of(s, c))
    }
}

/// A file name without its extension: what stands before the last `.`, and
/// the whole name where it holds no `.` or only starts with one.
pub open spec fn file_stem(name: Seq<char>) -> Seq<char> {
    if last_index_of(name, '.') <= 0 {
        name
    } else {
        name.take(last_index_of(name, '.'))
    }
}

/// Strips the extension from a file name.
pub fn strip_extension(name: &str) -> (stem: &str)
    ensures
        stem@ == file_stem(name@),
{
    match find_last(name, '.') {
        Some(dot) => if dot == 0 {
            name
        } else {
            name.substring_char(0, dot)
        },
        None => name,
    }
}

/// The extension of a file name: what stands behind the last `.`, and `None`
/// where the name holds no `.` or only starts with one.
pub open spec fn file_extension(name: Seq<char>) -> Option<Seq<char>> {
    if last_index_of(name, '.') <= 0 {
        None
    } else {
        Some(name.skip(last_index_of(name, '.') + 1))
    }
}

/// How the image of a logo is stored.
#[derive(Clone, Copy, Debug, PartialEq, Eq, Structural)]
pub enum LogoFormat {
    /// A drawing, which is rendered at its own size before it is sampled.
    Vector,
    /// A grid of pixels.
    Raster,
}

/// The format that the name of a logo file tells: a drawing for the
/// extension `svg`, pixels for any other, and `None` without an extension.
pub open spec fn logo_format_of(name: Seq<char>) -> Option<LogoFormat> {
    match file_extension(name) {
        Some(extension) => if extension == "svg"@ {
            Some(LogoFormat::Vector)
        } else {
            Some(LogoFormat::Raster)
        },
        None => None,
    }
}

/// Tells the format of a logo by the name of its file.
pub fn logo_format(file_name: &str) -> (format: Option<LogoFormat>)
    ensures
        format == logo_format_of(file_name@),
{
    let n = file_name.unicode_len();
    match find_last(file_name, '.') {
        Some(dot) => if dot == 0 {
            None
        } else {
            let extension = file_name.substring_char(dot + 1, n).to_owned();
            if extension == String::from_str("svg") {
                Some(LogoFormat::Vector)
            } else {
                Some(LogoFormat::Raster)
            }
        },
        None => None,
    }
}

/// The minimum year of a logo stem: the number that its first segment
/// writes, or 0 where that segment is no number.
pub open spec fn logo_minimum_year(stem: Seq<char>) -> u32 {
    match parse_u32(before_first(stem, '_')) {
        Some(year) => year,
        None => 0,
    }
}

/// What a logo stem holds behind its year: the whole stem where it names no
/// year, and `None` where the year is all there is.
pub open spec fn logo_body(stem: Seq<char>) -> Option<Seq<char>> {
    if logo_minimum_year(stem) == 0 {
        Some(stem)
    } else if first_index_of(stem, '_') < stem.len() {
        Some(stem.skip(first_index_of(stem, '_') + 1))
    } else {
        None
    }
}

/// What a logo stem says. A last segment of one character is the division,
/// and the tournament name is what stands between year and division.
pub open spec fn logo_name(stem: Seq<char>) -> Result<LogoNameView, MalformedFileName> {
    let minimum_year = logo_minimum_year(stem);
    match logo_body(stem) {
        None => if stem.len() == 1 {
            Err(MalformedFileName::MissingName)
        } else {
            Ok(LogoNameView { tournament_name: Seq::empty(), division: None, minimum_year })
        },
        Some(body) => if after_last(body, '_').len() == 1 {
            Ok(
                LogoNameView {
                    tournament_name: before_last(body, '_'),
                    division: Some(after_last(body, '_')),
                    minimum_year,
                },
            )
        } else {
            Ok(LogoNameView { tournament_name: body, division: None, minimum_year })
        },
    }
}

/// The view of the outcome of reading a logo stem.
pub open spec fn logo_name_view(r: Result<LogoName, MalformedFileName>) -> Result<
    LogoNameView,
    MalformedFileName,
> {
    match r {
        Ok(name) => Ok(name@),
        Err(e) => Err(e),
    }
}

/// Reads the stem of a logo file name, that is the name without its extension.
pub fn parse_logo_name(stem: &str) -> (r: Result<LogoName, MalformedFileName>)
    ensures
        logo_name_view(r) == logo_name(stem@),
{
    let n = stem.unicode_len();
    let sep = find_first(stem, '_');
    let token = stem.substring_char(0, sep);
    let minimum_year = match read_u32(token) {
        Some(year) => year,
        None => 0,
    };
    assert(minimum_year == logo_minimum_year(stem@));
    let body = if minimum_year == 0 {
        proof {
            assert(stem@.subrange(0, n as int) =~= stem@);
        }
        stem.substring_char(0, n)
    } else if sep < n {
        stem.substring_char(sep + 1, n)
    } else if n == 1 {
        return Err(MalformedFileName::MissingName);
    } else {
        return Ok(LogoName { tournament_name: String::new(), division: None, minimum_year });
    };
    assert(logo_body(stem@) == Some(body@));
    let m = body.unicode_len();
    let start = match find_last(body, '_') {
        Some(cut) => cut + 1,
        None => 0,
    };
    assert(start == last_index_of(body@, '_') + 1);
    if m - start == 1 {
        let division = body.substring_char(start, m).to_owned();
        let tournament_name = if start == 0 {
            String::new()
        } else {
            body.substring_char(0, start - 1).to_owned()
        };
        Ok(LogoName { tournament_name, division: Some(division), minimum_year })
    } else {
        Ok(LogoName { tournament_name: body.to_owned(), division: None, minimum_year })
    }
}

/// A token that writes a number holds no `_`.
proof fn lemma_number_has_no_separator(token: Seq<char>)
    requires
        parse_u32(token) is Some,
    ensures
        forall|i: int| 0 <= i < token.len() ==> token[i] != '_',
{
    let d = unsigned_digits(token);
    assert forall|i: int| 0 <= i < token.len() implies token[i] != '_' by {
        if d.len() == token.len() {
            assert(d[i] == token[i]);
        } else if i > 0 {
            assert(d[i - 1] == token[i]);
        }
    }
}

/// A logo stem written as a year, a tournament name and a division reads back
/// as these three, whatever the tournament name holds.
pub proof fn lemma_logo_name_recovers(token: Seq<char>, name: Seq<char>, division: char)
    requires
        parse_u32(token) is Some,
        parse_u32(token)->0 != 0,
        division != '_',
    ensures
        logo_name(token + seq!['_'] + name + seq!['_', division]) == Ok::<
            LogoNameView,
            MalformedFileName,
        >(
            LogoNameView {
                tournament_name: name,
                division: Some(seq![division]),
                minimum_year: parse_u32(token)->0,
            },
        ),
{
    let stem = token + seq!['_'] + name + seq!['_', division];
    let body = name + seq!['_', division];
    lemma_number_has_no_separator(token);
    lemma_first_index(stem, '_');
    assert(is_first_index(stem, '_', token.len() as int));
    assert(stem.take(token.len() as int) =~= token);
    assert(stem.skip(token.len() as int + 1) =~= body);
    lemma_last_index(body, '_');
    assert(is_last_index(body, '_', name.len() as int));
    assert(body.skip(name.len() as int + 1) =~= seq![division]);
    assert(body.take(name.len() as int) =~= name);
}

/// A logo stem written as a year and a tournament name reads back as these
/// two, for all divisions, unless the last segment of the tournament name is
/// one character long.
pub proof fn lemma_logo_name_recovers_without_division(token: Seq<char>, name: Seq<char>)
    requires
        parse_u32(token) is Some,
        parse_u32(token)->0 != 0,
        after_last(name, '_').len() != 1,
    ensures
        logo_name(token + seq!['_'] + name) == Ok::<LogoNameView, MalformedFileName>(
            LogoNameView {
                tournament_name: name,
                division: None,
                minimum_year: parse_u32(token)->0,
            },
        ),
{
    let stem = token + seq!['_'] + name;
    lemma_number_has_no_separator(token);
    lemma_first_index(stem, '_');
    assert(is_first_index(stem, '_', token.len() as int));
    assert(stem.take(token.len() as int) =~= token);
    assert(stem.skip(token.len() as int + 1) =~= name);
}

/// What the name of a result file says: the year before the first `-`; behind
/// the first `_`, the tournament name up to the last `_`; and behind that the
/// division, up to the first `.`.
pub open spec fn result_identity(name: Seq<char>) -> Result<
    ResultFileIdentityView,
    MalformedFileName,
> {
    let year = parse_u32(before_first(name, '-'));
    let tail = name.skip(first_index_of(name, '_') + 1);
    if year is None {
        Err(MalformedFileName::MissingYear)
    } else if first_index_of(name, '_') == name.len() || last_index_of(tail, '_') < 0 {
        Err(MalformedFileName::MissingSuffix)
    } else {
        Ok(
            ResultFileIdentityView {
                year: year->0,
                division: before_first(after_last(tail, '_'), '.'),
                tournament_name: before_last(tail, '_'),
            },
        )
    }
}

/// The view of the outcome of reading a result file name.
pub open spec fn result_identity_view(r: Result<ResultFileIdentity, MalformedFileName>) -> Result<
    ResultFileIdentityView,
    MalformedFileName,
> {
    match r {
        Ok(id) => Ok(id@),
        Err(e) => Err(e),
    }
}

/// Reads the name of a result file.
pub fn parse_result_file_name(name: &str) -> (r: Result<ResultFileIdentity, MalformedFileName>)
    ensures
        result_identity_view(r) == result_identity(name@),
{
    let n = name.unicode_len();
    let dash = find_first(name, '-');
    let year = match read_u32(name.substring_char(0, dash)) {
        Some(year) => year,
        None => {
            return Err(MalformedFileName::MissingYear);
        },
    };
    let sep = find_first(name, '_');
    if sep == n {
        return Err(MalformedFileName::MissingSuffix);
    }
    let tail = name.substring_char(sep + 1, n);
    let m = tail.unicode_len();
    let cut = match find_last(tail, '_') {
        Some(cut) => cut,
        None => {
            return Err(MalformedFileName::MissingSuffix);
        },
    };
    let token = tail.substring_char(cut + 1, m);
    let dot = find_first(token, '.');
    let division = token.substring_char(0, dot).to_owned();
    let tournament_name = tail.substring_char(0, cut).to_owned();
    Ok(ResultFileIdentity { year, division, tournament_name })
}

} // verus!
