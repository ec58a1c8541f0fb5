//! The canonical names: the events and the schools of all tournaments, each
//! once and in order, and the CSV text that lists them.

use crate::order::{
    keys, lemma_row_order_is_total, lemma_str_order_is_total, lemma_strictly_in_order_is_unique,
    row_less, seq_order, sort_distinct, str_is_less, str_order, Ordered,
};
use vstd::prelude::*;
use vstd::string::*;

verus! {

/// The strings of a row as mathematical values.
pub open spec fn row_view(row: Vec<String>) -> Seq<Seq<char>> {
    Seq::new(row@.len(), |i: int| row@[i]@)
}

/// The rows of a table as mathematical values.
pub open spec fn table_view(rows: Seq<Vec<String>>) -> Seq<Seq<Seq<char>>> {
    Seq::new(rows.len(), |i: int| row_view(rows[i]))
}

impl Ordered for Vec<String> {
    type Key = Seq<Seq<char>>;

    open spec fn key(&self) -> Seq<Seq<char>> {
        row_view(*self)
    }

    open spec fn before(a: Seq<Seq<char>>, b: Seq<Seq<char>>) -> bool {
        row_less(a, b)
    }

    proof fn lemma_before_is_total() {
        lemma_row_order_is_total();
        assert((|a: Seq<Seq<char>>, b: Seq<Seq<char>>| Self::before(a, b)) =~= seq_order(
            str_order(),
        ));
    }

    fn stands_before(&self, other: &Vec<String>) -> (r: bool) {
        let ghost (a, b) = (row_view(*self), row_view(*other));
        let n = self.len();
        let m = other.len();
        let mut i: usize = 0;
        assert(a.skip(0) =~= a && b.skip(0) =~= b);
        while i < n && i < m
            invariant
                n == a.len(),
                m == b.len(),
                a == row_view(*self),
                b == row_view(*other),
                i <= n,
                i <= m,
                row_less(a, b) == row_less(a.skip(i as int), b.skip(i as int)),
            decreases n - i,
        {
            assert(a.skip(i as int)[0] == self@[i as int]@);
            assert(b.skip(i as int)[0] == other@[i as int]@);
            if str_is_less(self[i].as_str(), other[i].as_str()) {
                return true;
            }
            if str_is_less(other[i].as_str(), self[i].as_str()) {
                proof {
                    lemma_str_order_is_total();
                    let (x, y) = (self@[i as int]@, other@[i as int]@);
                    if str_order()(x, y) {
                        assert(str_order()(y, x));
                        assert(str_order()(x, x));
                        assert(str_order()(x, x) == false);
                    }
                }
                return false;
            }
            proof {
                assert(a.skip(i as int).skip(1) =~= a.skip(i + 1));
                assert(b.skip(i as int).skip(1) =~= b.skip(i + 1));
            }
            i += 1;
        }
        i < m
    }
}

/// A team of a tournament, as far as its school goes.
#[derive(Debug)]
pub struct Team {
    /// The name of the school.
    pub school: String,
    /// The city of the school, where it is known.
    pub city: Option<String>,
    /// The state of the school.
    pub state: String,
}

/// The row of an event: its name.
pub open spec fn event_row(name: Seq<char>) -> Seq<Seq<char>> {
    seq![name]
}

/// The row of a school: name, city and state, with an empty city where none
/// is known.
pub open spec fn school_row(team: Team) -> Seq<Seq<char>> {
    seq![
        team.school@,
        match team.city {
            Some(city) => city@,
            None => Seq::empty(),
        },
        team.state@,
    ]
}

/// The rows of the events with the given names, in the order of the names.
pub open spec fn event_rows(names: Seq<String>) -> Seq<Seq<Seq<char>>> {
    Seq::new(names.len(), |i: int| event_row(names[i]@))
}

/// The rows of the schools of the given teams, in the order of the teams.
pub open spec fn school_rows(teams: Seq<Team>) -> Seq<Seq<Seq<char>>> {
    Seq::new(teams.len(), |i: int| school_row(teams[i]))
}

/// A table is canonical for `rows` where it holds each of them once, and
/// they stand in ascending order.
pub open spec fn is_canonical(table: Seq<Seq<Seq<char>>>, rows: Seq<Seq<Seq<char>>>) -> bool {
    &&& forall|i: int, j: int|
        0 <= i < j < table.len() ==> row_less(#[trigger] table[i], #[trigger] table[j])
    &&& table.to_set() == rows.to_set()
}

/// The rows have one canonical table, in whatever order and however often
/// they are given.
pub proof fn lemma_canonical_is_unique(
    first: Seq<Seq<Seq<char>>>,
    second: Seq<Seq<Seq<char>>>,
    rows: Seq<Seq<Seq<char>>>,
)
    requires
        is_canonical(first, rows),
        is_canonical(second, rows),
    ensures
        first == second,
{
    lemma_strictly_in_order_is_unique::<Vec<String>>(first, second);
}

/// The canonical table of the events: the name of each event of any
/// tournament, once, in ascending order.
pub fn canonical_events(names: &Vec<String>) -> (table: Vec<Vec<String>>)
    ensures
        is_canonical(table_view(table@), event_rows(names@)),
{
    let mut rows: Vec<Vec<String>> = Vec::new();
    let mut i: usize = 0;
    while i < names.len()
        invariant
            i <= names@.len(),
            rows@.len() == i,
            forall|j: int| 0 <= j < i ==> row_view(#[trigger] rows@[j]) == event_row(names@[j]@),
        decreases names@.len() - i,
    {
        let mut row: Vec<String> = Vec::new();
        row.push(names[i].clone());
        assert(row_view(row) =~= event_row(names@[i as int]@));
        rows.push(row);
        i += 1;
    }
    assert(keys(rows@) =~= event_rows(names@));
    let table = sort_distinct(rows);
    assert(keys(table@) =~= table_view(table@));
    table
}

/// The canonical table of the schools: name, city and state of the school of
/// each team of any tournament, once, in ascending order.
pub fn canonical_schools(teams: &Vec<Team>) -> (table: Vec<Vec<String>>)
    ensures
        is_canonical(table_view(table@), school_rows(teams@)),
{
    let mut rows: Vec<Vec<String>> = Vec::new();
    let mut i: usize = 0;
    while i < teams.len()
        invariant
            i <= teams@.len(),
            rows@.len() == i,
            forall|j: int| 0 <= j < i ==> row_view(#[trigger] rows@[j]) == school_row(teams@[j]),
        decreases teams@.len() - i,
    {
        let team = &teams[i];
        let mut row: Vec<String> = Vec::new();
        row.push(team.school.clone());
        match &team.city {
            Some(city) => row.push(city.clone()),
            None => row.push(String::new()),
        }
        row.push(team.state.clone());
        assert(row_view(row) =~= school_row(teams@[i as int]));
        rows.push(row);
        i += 1;
    }
    assert(keys(rows@) =~= school_rows(teams@));
    let table = sort_distinct(rows);
    assert(keys(table@) =~= table_view(table@));
    table
}

/// Why a table cannot be written as CSV.
#[derive(Clone, Copy, Debug, PartialEq, Eq, Structural)]
pub enum CsvError {
    /// The record at this place has not as many fields as the first record.
    UnequalLengths(usize),
}

/// The bytes that `csv::Writer` writes for one record.
pub uninterp spec fn csv_line(fields: Seq<Seq<char>>) -> Seq<u8>;

/// Lines of bytes, one after the other.
pub open spec fn joined(lines: Seq<Seq<u8>>) -> Seq<u8>
    decreases lines.len(),
{
    if lines.len() == 0 {
        Seq::empty()
    } else {
        joined(lines.drop_last()) + lines.last()
    }
}

/// The lines of the records of a table.
pub open spec fn csv_lines(table: Seq<Seq<Seq<char>>>) -> Seq<Seq<u8>> {
    Seq::new(table.len(), |i: int| csv_line(table[i]))
}

/// The CSV text of a table: the lines of its records, one after the other.
pub open spec fn csv_text(table: Seq<Seq<Seq<char>>>) -> Seq<u8> {
    joined(csv_lines(table))
}

/// The bytes of each line.
pub open spec fn line_views(lines: Seq<Vec<u8>>) -> Seq<Seq<u8>> {
    Seq::new(lines.len(), |i: int| lines[i]@)
}

/// The place of the first record that has not as many fields as the first
/// record, or the number of records where all have.
pub open spec fn first_unequal(table: Seq<Seq<Seq<char>>>) -> int
    decreases table.len(),
{
    if table.len() == 0 {
        0
    } else if first_unequal(table.drop_last()) < table.len() - 1 {
        first_unequal(table.drop_last())
    } else if table.last().len() != table[0].len() {
        table.len() - 1
    } else {
        table.len() as int
    }
}

/// Writes one record as CSV: `csv::Writer::from_writer` on an empty vector,
/// `write_record`, `into_inner`. The contract names the bytes that come out,
/// and claims that they do come out: a vector takes every write, and a first
/// record has no number of fields to differ from.
#[verifier::external_body]
fn csv_record(fields: &Vec<String>) -> (line: Option<Vec<u8>>)
    ensures
        line is Some,
        line->0@ == csv_line(row_view(*fields)),
{
    let mut writer = csv::Writer::from_writer(Vec::new());
    let written = writer.write_record(fields);
    match (written, writer.into_inner()) {
        (Ok(()), Ok(bytes)) => Some(bytes),
        _ => None,
    }
}

/// Finds the first record that has not as many fields as the first record.
pub fn find_unequal(records: &Vec<Vec<String>>) -> (r: Option<usize>)
    ensures
        match r {
            Some(i) => i == first_unequal(table_view(records@)) && i < records@.len(),
            None => first_unequal(table_view(records@)) == records@.len(),
        },
{
    let ghost table = table_view(records@);
    let mut i: usize = 0;
    assert(table.take(0) =~= Seq::<Seq<Seq<char>>>::empty());
    while i < records.len()
        invariant
            i <= records@.len(),
            table == table_view(records@),
            first_unequal(table.take(i as int)) == i,
        decreases records@.len() - i,
    {
        let ghost next = table.take(i + 1);
        proof {
            assert(next.drop_last() =~= table.take(i as int));
            assert(next.last() == row_view(records@[i as int]));
            assert(next[0] == table[0]);
            assert(row_view(records@[i as int]).len() == records@[i as int]@.len());
            assert(table[0].len() == records@[0]@.len());
        }
        if records[i].len() != records[0].len() {
            proof {
                lemma_first_unequal_stays(table, i + 1);
            }
            return Some(i);
        }
        i += 1;
    }
    assert(table.take(i as int) =~= table);
    None
}

/// Puts lines one after the other.
pub fn join_lines(lines: &Vec<Vec<u8>>) -> (text: Vec<u8>)
    ensures
        text@ == joined(line_views(lines@)),
{
    let ghost all = line_views(lines@);
    let mut text: Vec<u8> = Vec::new();
    let mut i: usize = 0;
    assert(all.take(0) =~= Seq::<Seq<u8>>::empty());
    while i < lines.len()
        invariant
            i <= lines@.len(),
            all == line_views(lines@),
            text@ == joined(all.take(i as int)),
        decreases lines@.len() - i,
    {
        proof {
            let next = all.take(i + 1);
            assert(next.drop_last() =~= all.take(i as int));
            assert(next.last() == lines@[i as int]@);
        }
        let mut line = lines[i].clone();
        text.append(&mut line);
        i += 1;
    }
    assert(all.take(i as int) =~= all);
    text
}

/// Writes a table as CSV. Every record must have as many fields as the first.
pub fn write_csv(records: &Vec<Vec<String>>) -> (r: Result<Vec<u8>, CsvError>)
    ensures
        match r {
            Ok(bytes) => first_unequal(table_view(records@)) == records@.len() && bytes@
                == csv_text(table_view(records@)),
            Err(CsvError::UnequalLengths(i)) => i == first_unequal(table_view(records@)) && i
                < records@.len(),
        },
{
    if let Some(i) = find_unequal(records) {
        return Err(CsvError::UnequalLengths(i));
    }
    let mut lines: Vec<Vec<u8>> = Vec::new();
    let mut i: usize = 0;
    while i < records.len()
        invariant
            i <= records@.len(),
            lines@.len() == i,
            forall|j: int|
                0 <= j < i ==> (#[trigger] lines@[j])@ == csv_line(row_view(records@[j])),
        decreases records@.len() - i,
    {
        let line = csv_record(&records[i]).unwrap();
        lines.push(line);
        i += 1;
    }
    assert(line_views(lines@) =~= csv_lines(table_view(records@)));
    Ok(join_lines(&lines))
}

/// A record that differs from the first stays the first to differ when
/// records follow it.
proof fn lemma_first_unequal_stays(table: Seq<Seq<Seq<char>>>, k: int)
    requires
        0 <= k <= table.len(),
        first_unequal(table.take(k)) < k,
    ensures
        first_unequal(table) == first_unequal(table.take(k)),
    decreases table.len() - k,
{
    if k < table.len() {
        assert(table.drop_last().take(k) =~= table.take(k));
        lemma_first_unequal_stays(table.drop_last(), k);
    } else {
        assert(table.take(k) =~= table);
    }
}

} // verus!
