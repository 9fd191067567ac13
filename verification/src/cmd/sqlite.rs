//! Deleted rows recovered from a SQLite database, as text.

use vstd::prelude::*;
use vstd::string::*;
use crate::cmd::list_deleted;
use crate::output;
use crate::text;

verus! {

/// A recovered value.
#[derive(Clone, Debug)]
pub enum Value {
    Null,
    Integer(i64),
    /// A floating-point number, as it is printed.
    Real(String),
    Text(String),
    Blob(Vec<u8>),
}

/// A value as text: at most eighty characters of a text, in quotes, and no more
/// of a blob than its size.
pub open spec fn value_text(v: Value) -> Seq<char> {
    match v {
        Value::Null => "NULL"@,
        Value::Integer(i) => text::signed_dec(i as int),
        Value::Real(f) => f@,
        Value::Text(t) => text::quoted(text::cut(t@, 80)),
        Value::Blob(b) => "<blob "@ + text::dec(b@.len() as int) + " bytes>"@,
    }
}

/// A value as text.
pub fn show(v: &Value) -> (r: String)
    ensures
        r@ == value_text(*v),
{
    match v {
        Value::Null => "NULL".to_owned(),
        Value::Integer(i) => text::signed_decimal(*i),
        Value::Real(f) => f.clone(),
        Value::Text(t) => text::quote(text::take(t.as_str(), 80)),
        Value::Blob(b) => text::cat3("<blob ", text::decimal(b.len() as u64).as_str(), " bytes>"),
    }
}

/// A table of the database.
#[derive(Clone, Debug)]
pub struct TableInfo {
    pub name: String,
    pub columns: Vec<String>,
    pub live_rows: u64,
}

/// A row that was deleted.
#[derive(Clone, Debug)]
pub struct Recovered {
    pub table: String,
    pub rowid: Option<i64>,
    /// What it was recovered from.
    pub source: String,
    pub file: String,
    pub offset: u64,
    pub values: Vec<Value>,
}

/// How many of the first `n` rows are of a table.
pub open spec fn rows_of(rows: Seq<Recovered>, table: Seq<char>, n: int) -> int
    decreases n,
{
    if n <= 0 {
        0
    } else {
        rows_of(rows, table, n - 1) + (if rows[n - 1].table@ == table {
            1int
        } else {
            0
        })
    }
}

fn count_rows(rows: &Vec<Recovered>, table: &str) -> (r: usize)
    ensures
        r == rows_of(rows@, table@, rows@.len() as int),
{
    let mut n: usize = 0;
    let mut i: usize = 0;
    while i < rows.len()
        invariant
            n <= i <= rows@.len(),
            n == rows_of(rows@, table@, i as int),
        decreases rows@.len() - i,
    {
        if text::same_text(rows[i].table.as_str(), table) {
            n += 1;
        }
        i += 1;
    }
    n
}

/// A table's line: its live rows, and how many deleted ones were recovered.
pub open spec fn table_text(t: TableInfo, rows: Seq<Recovered>) -> Seq<char> {
    "  table "@ + output::padded(t.name@, 24) + " "@ + output::indented(
        text::dec(t.live_rows as int),
        7,
    ) + " live rows, "@ + output::indented(
        text::dec(rows_of(rows, t.name@, rows.len() as int)),
        6,
    ) + " deleted rows recovered"@
}

/// The columns of the first table of a name; none where there is no such table.
pub open spec fn columns_of(tables: Seq<TableInfo>, name: Seq<char>, from: int) -> Seq<Seq<char>>
    decreases tables.len() - from,
{
    if from < 0 || from >= tables.len() {
        Seq::empty()
    } else if tables[from].name@ == name {
        text::texts(tables[from].columns@)
    } else {
        columns_of(tables, name, from + 1)
    }
}

/// The first `n` columns with their values, a line for each that is not null.
pub open spec fn values_upto(columns: Seq<Seq<char>>, values: Seq<Value>, n: int) -> Seq<Seq<char>>
    decreases n,
{
    if n <= 0 {
        Seq::empty()
    } else if values[n - 1] is Null {
        values_upto(columns, values, n - 1)
    } else {
        values_upto(columns, values, n - 1).push(
            "    "@ + output::padded(columns[n - 1], 20) + " "@ + value_text(values[n - 1]),
        )
    }
}

/// How many columns have a value.
pub open spec fn paired(columns: Seq<Seq<char>>, values: Seq<Value>) -> int {
    if columns.len() <= values.len() {
        columns.len() as int
    } else {
        values.len() as int
    }
}

/// A recovered row as lines of text.
pub open spec fn row_text(r: Recovered, tables: Seq<TableInfo>) -> Seq<Seq<char>> {
    let columns = columns_of(tables, r.table@, 0);
    seq![
        ""@,
        r.table@ + " rowid="@ + (match r.rowid {
            Some(i) => text::signed_dec(i as int),
            None => "?"@,
        }) + " from "@ + r.source@ + " ("@ + r.file@ + " +"@ + text::dec(r.offset as int) + ")"@,
    ] + values_upto(columns, r.values@, paired(columns, r.values@))
}

/// The first `n` rows as lines of text.
pub open spec fn rows_text(rows: Seq<Recovered>, tables: Seq<TableInfo>, n: int) -> Seq<Seq<char>>
    decreases n,
{
    if n <= 0 {
        Seq::empty()
    } else {
        rows_text(rows, tables, n - 1) + row_text(rows[n - 1], tables)
    }
}

/// Tables, notes, and the rows up to the limit, as lines of text.
pub open spec fn report_text(
    tables: Seq<TableInfo>,
    rows: Seq<Recovered>,
    notes: Seq<Seq<char>>,
    limit: int,
) -> Seq<Seq<char>> {
    Seq::new(tables.len(), |i: int| table_text(tables[i], rows)) + text::prefixed("note: "@, notes)
        + rows_text(rows, tables, list_deleted::shown(rows.len() as int, limit))
}

fn say_row(lines: &mut Vec<String>, r: &Recovered, tables: &Vec<TableInfo>)
    ensures
        text::texts(final(lines)@) == text::texts(old(lines)@) + row_text(*r, tables@),
{
    let ghost was = text::texts(lines@);
    let mut at: usize = 0;
    while at < tables.len() && !text::same_text(tables[at].name.as_str(), r.table.as_str())
        invariant
            at <= tables@.len(),
            columns_of(tables@, r.table@, 0) == columns_of(tables@, r.table@, at as int),
        decreases tables@.len() - at,
    {
        at += 1;
    }
    let rowid: String = match r.rowid {
        Some(i) => text::signed_decimal(i),
        None => "?".to_owned(),
    };
    let start: String = text::cat5(
        r.table.as_str(),
        " rowid=",
        rowid.as_str(),
        " from ",
        r.source.as_str(),
    );
    let head: String = text::cat6(
        start.as_str(),
        " (",
        r.file.as_str(),
        " +",
        text::decimal(r.offset).as_str(),
        ")",
    );
    let ghost h = head@;
    text::say(lines, "".to_owned());
    text::say(lines, head);
    assert(text::texts(lines@) =~= was + seq![""@, h]);
    let ghost columns = columns_of(tables@, r.table@, 0);
    if at < tables.len() {
        let names: &Vec<String> = &tables[at].columns;
        assert(text::texts(names@) == columns);
        let mut i: usize = 0;
        while i < names.len() && i < r.values.len()
            invariant
                i <= names@.len(),
                i <= r.values@.len(),
                columns == text::texts(names@),
                text::texts(lines@) =~= was + seq![""@, h] + values_upto(
                    columns,
                    r.values@,
                    i as int,
                ),
            decreases names@.len() - i,
        {
            let null: bool = match &r.values[i] {
                Value::Null => true,
                _ => false,
            };
            if !null {
                text::say(
                    lines,
                    text::cat4(
                        "    ",
                        output::pad(names[i].as_str(), 20).as_str(),
                        " ",
                        show(&r.values[i]).as_str(),
                    ),
                );
            }
            i += 1;
        }
        assert(i == paired(columns, r.values@));
    }
    assert(text::texts(lines@) =~= was + row_text(*r, tables@));
}

/// Of the first `n` rows, those of one table.
pub open spec fn of_one(rows: Seq<Recovered>, name: Seq<char>, n: int) -> Seq<Recovered>
    decreases n,
{
    if n <= 0 {
        Seq::empty()
    } else if rows[n - 1].table@ == name {
        of_one(rows, name, n - 1).push(rows[n - 1])
    } else {
        of_one(rows, name, n - 1)
    }
}

/// The rows of one table; all of them where none is asked for.
pub fn of_table(rows: Vec<Recovered>, table: &Option<String>) -> (r: Vec<Recovered>)
    ensures
        r@ == (match table {
            Some(t) => of_one(rows@, t@, rows@.len() as int),
            None => rows@,
        }),
{
    match table {
        None => rows,
        Some(t) => {
            let ghost all = rows@;
            let mut rest = rows;
            let mut i: usize = 0;
            let ghost mut seen: int = 0;
            while i < rest.len()
                invariant
                    i <= seen <= all.len(),
                    i <= rest@.len(),
                    rest@ =~= of_one(all, t@, seen) + all.subrange(seen, all.len() as int),
                    i == of_one(all, t@, seen).len(),
                decreases rest@.len() - i,
            {
                assert(rest@[i as int] == all[seen]);
                if text::same_text(rest[i].table.as_str(), t.as_str()) {
                    i += 1;
                } else {
                    rest.remove(i);
                }
                proof {
                    seen = seen + 1;
                }
            }
            rest
        },
    }
}

/// Tables, notes, and the rows up to the limit, as lines of text.
pub fn report_lines(
    tables: &Vec<TableInfo>,
    rows: &Vec<Recovered>,
    notes: &Vec<String>,
    limit: usize,
) -> (r: Vec<String>)
    ensures
        text::texts(r@) == report_text(tables@, rows@, text::texts(notes@), limit as int),
{
    let mut out: Vec<String> = Vec::new();
    let ghost all = Seq::new(tables@.len(), |i: int| table_text(tables@[i], rows@));
    let mut i: usize = 0;
    while i < tables.len()
        invariant
            i <= tables@.len(),
            all == Seq::new(tables@.len(), |i: int| table_text(tables@[i], rows@)),
            text::texts(out@) =~= all.subrange(0, i as int),
        decreases tables@.len() - i,
    {
        let t = &tables[i];
        let n: usize = count_rows(rows, t.name.as_str());
        text::say(
            &mut out,
            text::cat7(
                "  table ",
                output::pad(t.name.as_str(), 24).as_str(),
                " ",
                output::indent(text::decimal(t.live_rows).as_str(), 7).as_str(),
                " live rows, ",
                output::indent(text::decimal(n as u64).as_str(), 6).as_str(),
                " deleted rows recovered",
            ),
        );
        i += 1;
    }
    assert(all.subrange(0, i as int) =~= all);
    text::say_prefixed(&mut out, "note: ", notes);
    let ghost so_far = text::texts(out@);
    let count: usize = if limit == 0 || rows.len() <= limit {
        rows.len()
    } else {
        limit
    };
    let mut k: usize = 0;
    while k < count
        invariant
            k <= count <= rows@.len(),
            text::texts(out@) =~= so_far + rows_text(rows@, tables@, k as int),
        decreases count - k,
    {
        say_row(&mut out, &rows[k], tables);
        k += 1;
    }
    out
}

} // verus!
