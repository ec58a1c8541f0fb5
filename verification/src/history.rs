//! When a result file was added: what the version-control log of the file
//! says, and where to look in it.
//!
//! The log is asked for outside this library. Each answer is handed to
//! `get_date_added`, which either settles the date or names the next path
//! to ask for.

use vstd::prelude::*;
use vstd::string::*;

verus! {

/// A moment as the log prints it: a date and a time of day at an offset
/// from UTC, which is given in seconds.
#[derive(Clone, Copy, Debug, PartialEq, Eq, Structural)]
pub struct CommitStamp {
    pub year: i32,
    pub month: u8,
    pub day: u8,
    pub hour: u8,
    pub minute: u8,
    pub second: u8,
    pub offset_seconds: i32,
}

/// The date added to a result file.
#[derive(Clone, Copy, Debug, PartialEq, Eq, Structural)]
pub struct DateAdded {
    /// The moment.
    pub stamp: CommitStamp,
    /// Whether the log gave the moment. Where it did not, the moment is the
    /// current time that the caller handed in.
    pub from_history: bool,
}

/// The directory whose history is asked.
#[derive(Clone, Copy, Debug, PartialEq, Eq, Structural)]
pub enum Lookup {
    /// The directory that holds the result files.
    Results,
    /// The directory that held them before the day of the move.
    Legacy,
}

/// What follows an answer of the log.
#[derive(Debug)]
pub enum DateStep {
    /// The history of `path` is to be asked next.
    Ask { path: String, lookup: Lookup },
    /// The date is settled.
    Done(DateAdded),
}

/// The mathematical value of a `DateStep`.
pub enum DateStepView {
    Ask { path: Seq<char>, lookup: Lookup },
    Done(DateAdded),
}

impl View for DateStep {
    type V = DateStepView;

    open spec fn view(&self) -> DateStepView {
        match self {
            DateStep::Ask { path, lookup } => DateStepView::Ask { path: path@, lookup: *lookup },
            DateStep::Done(date) => DateStepView::Done(*date),
        }
    }
}

/// The year of the day on which the result files were moved.
pub const MOVE_YEAR: i32 = 2020;

/// The month of the day on which the result files were moved.
pub const MOVE_MONTH: u8 = 7;

/// The day of the month on which the result files were moved.
pub const MOVE_DAY: u8 = 8;

/// The format in which the log prints a moment: date, time of day, offset.
pub open spec fn log_date_format() -> Seq<char> {
    "%F %T %z"@
}

/// What `time::OffsetDateTime::parse` reads from the start of `text` in the
/// given format: the moment, in the offset read, or `None` where it fails.
pub uninterp spec fn parsed_stamp(text: Seq<char>, format: Seq<char>) -> Option<CommitStamp>;

/// Whether a text starts with a sign.
pub open spec fn starts_with_sign(text: Seq<char>) -> bool {
    text.len() > 0 && (text[0] == '+' || text[0] == '-')
}

/// The moment that a log starts with, or `None` where it starts with none.
/// A year with a sign before it is no year of a log.
pub open spec fn log_stamp(text: Seq<char>) -> Option<CommitStamp> {
    if starts_with_sign(text) {
        None
    } else {
        parsed_stamp(text, log_date_format())
    }
}

/// Whether the day of a moment is before the day of the move.
pub open spec fn before_move(stamp: CommitStamp) -> bool {
    stamp.year < MOVE_YEAR || (stamp.year == MOVE_YEAR && (stamp.month < MOVE_MONTH || (stamp.month
        == MOVE_MONTH && stamp.day < MOVE_DAY)))
}

/// The date that a moment read from the log gives: that moment, or else the
/// current time.
pub open spec fn date_or_now(stamp: Option<CommitStamp>, now: CommitStamp) -> DateAdded {
    match stamp {
        Some(stamp) => DateAdded { stamp, from_history: true },
        None => DateAdded { stamp: now, from_history: false },
    }
}

/// The date that an answer of the log gives: the moment it starts with, or
/// else the current time.
pub open spec fn date_from_log(output: Seq<char>, now: CommitStamp) -> DateAdded {
    date_or_now(log_stamp(output), now)
}

/// The name of the directory that a lookup asks in.
pub open spec fn lookup_directory(lookup: Lookup) -> Seq<char> {
    match lookup {
        Lookup::Results => "results"@,
        Lookup::Legacy => "data"@,
    }
}

/// The path that a lookup asks for: directory, `/`, file name.
pub open spec fn lookup_path(lookup: Lookup, file_name: Seq<char>) -> Seq<char> {
    lookup_directory(lookup) + seq!['/'] + file_name
}

/// What follows a date. A date before the day of the move, found for the
/// directory of the result files, sends the search on to the directory that
/// held them before; every other date is settled.
pub open spec fn step_for_date(lookup: Lookup, file_name: Seq<char>, date: DateAdded)
    -> DateStepView {
    if lookup == Lookup::Results && before_move(date.stamp) {
        DateStepView::Ask { path: lookup_path(Lookup::Legacy, file_name), lookup: Lookup::Legacy }
    } else {
        DateStepView::Done(date)
    }
}

/// What follows an answer of the log.
pub open spec fn date_step(
    lookup: Lookup,
    file_name: Seq<char>,
    output: Seq<char>,
    now: CommitStamp,
) -> DateStepView {
    step_for_date(lookup, file_name, date_from_log(output, now))
}

/// Reads a moment from the start of a text: `time::OffsetDateTime::parse`,
/// whose result the contract names; its parts are read off with `year`,
/// `month`, `day`, `hour`, `minute`, `second` and `offset`. The outside
/// function panics on a format that it does not know, and where a year with
/// a sign, at an offset, leaves the years it can hold; `requires` admits the
/// one format of the log and no sign.
#[verifier::external_body]
fn parse_stamp(text: &str, format: &str) -> (r: Option<CommitStamp>)
    requires
        format@ == log_date_format(),
        !starts_with_sign(text@),
    ensures
        r == parsed_stamp(text@, format@),
{
    match time::OffsetDateTime::parse(text, format) {
        Ok(t) => Some(
            CommitStamp {
                year: t.year(),
                month: t.month(),
                day: t.day(),
                hour: t.hour(),
                minute: t.minute(),
                second: t.second(),
                offset_seconds: t.offset().as_seconds(),
            },
        ),
        Err(_) => None,
    }
}

/// Reads the moment that a log starts with.
pub fn read_log_stamp(output: &str) -> (r: Option<CommitStamp>)
    ensures
        r == log_stamp(output@),
{
    if output.unicode_len() > 0 {
        let first = output.get_char(0);
        if first == '+' || first == '-' {
            return None;
        }
    }
    parse_stamp(output, "%F %T %z")
}

/// Whether the day of a moment is before the day of the move.
pub fn is_before_move(stamp: &CommitStamp) -> (r: bool)
    ensures
        r == before_move(*stamp),
{
    stamp.year < MOVE_YEAR || (stamp.year == MOVE_YEAR && (stamp.month < MOVE_MONTH || (stamp.month
        == MOVE_MONTH && stamp.day < MOVE_DAY)))
}

/// The date that a moment read from the log gives; `now` is the current
/// time.
pub fn settle_date(stamp: Option<CommitStamp>, now: CommitStamp) -> (date: DateAdded)
    ensures
        date == date_or_now(stamp, now),
{
    match stamp {
        Some(stamp) => DateAdded { stamp, from_history: true },
        None => DateAdded { stamp: now, from_history: false },
    }
}

/// The date that an answer of the log gives; `now` is the current time.
pub fn get_date_from_git(output: &str, now: CommitStamp) -> (date: DateAdded)
    ensures
        date == date_from_log(output@, now),
{
    settle_date(read_log_stamp(output), now)
}

/// The path whose history a lookup asks for.
pub fn history_path(lookup: Lookup, file_name: &str) -> (path: String)
    ensures
        path@ == lookup_path(lookup, file_name@),
{
    let mut path = match lookup {
        Lookup::Results => String::from_str("results"),
        Lookup::Legacy => String::from_str("data"),
    };
    proof {
        reveal_strlit("/");
        assert("/"@ =~= seq!['/']);
    }
    path.append("/");
    path.append(file_name);
    path
}

/// What follows the date that `lookup` found for the result file
/// `file_name`.
pub fn step_after_date(lookup: Lookup, file_name: &str, date: DateAdded) -> (step: DateStep)
    ensures
        step@ == step_for_date(lookup, file_name@, date),
{
    let first = match lookup {
        Lookup::Results => true,
        Lookup::Legacy => false,
    };
    if first && is_before_move(&date.stamp) {
        DateStep::Ask { path: history_path(Lookup::Legacy, file_name), lookup: Lookup::Legacy }
    } else {
        DateStep::Done(date)
    }
}

/// What follows the answer `output` that the log gave to `lookup` for the
/// result file `file_name`; `now` is the current time.
pub fn get_date_added(lookup: Lookup, file_name: &str, output: &str, now: CommitStamp) -> (step:
    DateStep)
    ensures
        step@ == date_step(lookup, file_name@, output@, now),
{
    step_after_date(lookup, file_name, get_date_from_git(output, now))
}

/// No result file is looked up more than twice: what follows an answer for
/// the directory that held the files before is a settled date.
pub proof fn lemma_legacy_lookup_settles(file_name: Seq<char>, output: Seq<char>, now: CommitStamp)
    ensures
        date_step(Lookup::Legacy, file_name, output, now) is Done,
        date_step(Lookup::Results, file_name, output, now) matches DateStepView::Ask { lookup, .. }
            ==> lookup == Lookup::Legacy,
{
}

} // verus!
