//! Green, yellow and red ratings for deleted files, with reasons.

use vstd::prelude::*;
use vstd::string::*;
use crate::cmd::list_deleted;
use crate::cmd::list_deleted::Partition;
use crate::output;
use crate::sorting;
use crate::text;

verus! {

/// How likely a deleted file is to be intact.
#[derive(Clone, Copy, Debug, PartialEq, Eq, Structural)]
pub enum Band {
    Green,
    Yellow,
    Red,
}

/// The band of a name, whatever its case.
pub open spec fn band_named(s: Seq<char>) -> Option<Band> {
    let low = text::ascii_lower(s);
    if low == "green"@ {
        Some(Band::Green)
    } else if low == "yellow"@ {
        Some(Band::Yellow)
    } else if low == "red"@ {
        Some(Band::Red)
    } else {
        None
    }
}

/// What is said of a name that is no band's.
pub open spec fn no_band(s: Seq<char>) -> Seq<char> {
    "--band must be green, yellow or red, not "@ + text::ascii_lower(s)
}

/// The band of a name, whatever its case.
pub fn parse_band(s: &str) -> (r: Result<Band, String>)
    ensures
        match r {
            Ok(b) => band_named(s@) == Some(b),
            Err(m) => band_named(s@) is None && m@ == no_band(s@),
        },
{
    proof {
        reveal_strlit("green");
        reveal_strlit("yellow");
        reveal_strlit("red");
    }
    let low: String = text::to_ascii_lower(s);
    if text::same_text(low.as_str(), "green") {
        Ok(Band::Green)
    } else if text::same_text(low.as_str(), "yellow") {
        Ok(Band::Yellow)
    } else if text::same_text(low.as_str(), "red") {
        Ok(Band::Red)
    } else {
        Err(text::cat2("--band must be green, yellow or red, not ", low.as_str()))
    }
}

/// The bands of a list of names; the first name that is no band's is refused.
pub fn parse_bands(names: &Vec<String>) -> (r: Result<Vec<Band>, String>)
    ensures
        match r {
            Ok(v) => v@.len() == names@.len() && forall|i: int|
                0 <= i < names@.len() ==> band_named((#[trigger] names@[i])@) == Some(v@[i]),
            Err(m) => exists|i: int|
                {
                    &&& 0 <= i < names@.len()
                    &&& band_named((#[trigger] names@[i])@) is None
                    &&& m@ == no_band(names@[i]@)
                    &&& forall|j: int|
                        0 <= j < i ==> band_named((#[trigger] names@[j])@) is Some
                },
        },
{
    let mut out: Vec<Band> = Vec::new();
    let mut i: usize = 0;
    while i < names.len()
        invariant
            i <= names@.len(),
            out@.len() == i,
            forall|k: int| 0 <= k < i ==> band_named((#[trigger] names@[k])@) == Some(out@[k]),
        decreases names@.len() - i,
    {
        match parse_band(names[i].as_str()) {
            Ok(b) => out.push(b),
            Err(m) => {
                assert(band_named(names@[i as int]@) is None);
                return Err(m);
            },
        }
        i += 1;
    }
    Ok(out)
}

/// Where the volumes are that are to be read: at the offset given, or at every
/// partition whose file system can be read, or else at the start.
pub open spec fn volumes_of(offset: Option<u64>, parts: Seq<Partition>) -> Seq<int> {
    match offset {
        Some(o) => seq![o as int],
        None => {
            let found = readable_upto(parts, parts.len() as int);
            if found.len() == 0 {
                seq![0int]
            } else {
                found
            }
        },
    }
}

/// The offsets of those of the first `n` partitions whose file system can be
/// read.
pub open spec fn readable_upto(parts: Seq<Partition>, n: int) -> Seq<int>
    decreases n,
{
    if n <= 0 {
        Seq::empty()
    } else if parts[n - 1].supported {
        readable_upto(parts, n - 1).push(parts[n - 1].offset as int)
    } else {
        readable_upto(parts, n - 1)
    }
}

/// Where the volumes are that are to be read.
pub fn volumes(offset: Option<u64>, parts: &Vec<Partition>) -> (r: Vec<u64>)
    ensures
        Seq::new(r@.len(), |i: int| r@[i] as int) == volumes_of(offset, parts@),
{
    let mut out: Vec<u64> = Vec::new();
    match offset {
        Some(o) => {
            out.push(o);
            assert(Seq::new(out@.len(), |i: int| out@[i] as int) =~= seq![o as int]);
        },
        None => {
            let mut i: usize = 0;
            while i < parts.len()
                invariant
                    i <= parts@.len(),
                    Seq::new(out@.len(), |i: int| out@[i] as int) =~= readable_upto(
                        parts@,
                        i as int,
                    ),
                decreases parts@.len() - i,
            {
                if parts[i].supported {
                    out.push(parts[i].offset);
                }
                i += 1;
            }
            if out.len() == 0 {
                out.push(0);
                assert(Seq::new(out@.len(), |i: int| out@[i] as int) =~= seq![0int]);
            }
        },
    }
    out
}

/// Whether a path passes a filter.
pub open spec fn passes(path: Seq<char>, filter: Option<String>) -> bool {
    filter matches Some(f) ==> list_deleted::holds_anycase(path, f@)
}

/// Whether a path passes a filter: it contains it, in any case.
pub fn path_passes(path: &str, filter: &Option<String>) -> (r: bool)
    ensures
        r == passes(path@, *filter),
{
    match filter {
        Some(f) => list_deleted::contains_anycase(path, f.as_str()),
        None => true,
    }
}

/// A file and its rating.
#[derive(Clone, Debug)]
pub struct Row {
    pub path: String,
    pub size: u64,
    pub band: Band,
    /// The band as it is printed.
    pub band_label: String,
    pub value: u64,
    /// The rules that set the rating, with what each found.
    pub reasons: Vec<(String, String)>,
}

/// How many of the first `n` rows are in a band.
pub open spec fn in_band(rows: Seq<Row>, band: Band, n: int) -> int
    decreases n,
{
    if n <= 0 {
        0
    } else {
        in_band(rows, band, n - 1) + (if rows[n - 1].band == band {
            1int
        } else {
            0
        })
    }
}

fn count_band(rows: &Vec<Row>, band: Band) -> (r: usize)
    ensures
        r == in_band(rows@, band, rows@.len() as int),
{
    let mut n: usize = 0;
    let mut i: usize = 0;
    while i < rows.len()
        invariant
            n <= i <= rows@.len(),
            n == in_band(rows@, band, i as int),
        decreases rows@.len() - i,
    {
        if rows[i].band == band {
            n += 1;
        }
        i += 1;
    }
    n
}

/// The indices of those of the first `n` rows that are in the band asked for.
pub open spec fn kept_upto(rows: Seq<Row>, want: Option<Band>, n: int) -> Seq<int>
    decreases n,
{
    if n <= 0 {
        Seq::empty()
    } else if want is None || want == Some(rows[n - 1].band) {
        kept_upto(rows, want, n - 1).push(n - 1)
    } else {
        kept_upto(rows, want, n - 1)
    }
}

pub open spec fn values_of(rows: Seq<Row>, kept: Seq<int>) -> Seq<u64> {
    Seq::new(kept.len(), |i: int| rows[kept[i]].value)
}

pub open spec fn paths_of(rows: Seq<Row>, kept: Seq<int>) -> Seq<Seq<char>> {
    Seq::new(kept.len(), |i: int| rows[kept[i]].path@)
}

/// Rules and details, a line for each.
pub open spec fn reason_lines(prefix: Seq<char>, reasons: Seq<(String, String)>) -> Seq<Seq<char>> {
    Seq::new(reasons.len(), |i: int| prefix + reasons[i].0@ + ": "@ + reasons[i].1@)
}

/// A row as lines of text.
pub open spec fn row_text(r: Row) -> Seq<Seq<char>> {
    seq![
        ""@,
        output::padded(r.band_label@, 6) + " "@ + output::indented(text::dec(r.value as int), 3)
            + "  "@ + output::indented(output::size_text(r.size as int), 9) + "  "@ + r.path@,
    ] + reason_lines("         "@, r.reasons@)
}

/// The first `n` of the rows in their order, as lines of text.
pub open spec fn rows_text(rows: Seq<Row>, kept: Seq<int>, o: Seq<usize>, n: int) -> Seq<Seq<char>>
    decreases n,
{
    if n <= 0 {
        Seq::empty()
    } else {
        rows_text(rows, kept, o, n - 1) + row_text(rows[kept[o[n - 1] as int]])
    }
}

/// Whether `r` is the report on `rows`: how many there are in each band, and
/// then those in the band asked for, the lowest ratings first and by path
/// within a rating, up to the limit.
pub open spec fn reports(
    r: Seq<Seq<char>>,
    rows: Seq<Row>,
    want: Option<Band>,
    limit: int,
) -> bool {
    let n = rows.len() as int;
    let kept = kept_upto(rows, want, n);
    let head = text::dec(in_band(rows, Band::Green, n)) + " GREEN, "@ + text::dec(
        in_band(rows, Band::Yellow, n),
    ) + " YELLOW, "@ + text::dec(in_band(rows, Band::Red, n)) + " RED deleted files"@;
    exists|o: Seq<usize>|
        {
            &&& #[trigger] sorting::in_order(
                values_of(rows, kept),
                paths_of(rows, kept),
                o,
                0,
                kept.len() as int,
            )
            &&& r == seq![head] + rows_text(
                rows,
                kept,
                o,
                list_deleted::shown(kept.len() as int, limit),
            )
        }
}

/// Append rules and details, a line for each.
pub fn say_reasons(lines: &mut Vec<String>, prefix: &str, reasons: &Vec<(String, String)>)
    ensures
        text::texts(final(lines)@) == text::texts(old(lines)@) + reason_lines(prefix@, reasons@),
{
    let ghost was = text::texts(lines@);
    let mut i: usize = 0;
    while i < reasons.len()
        invariant
            i <= reasons@.len(),
            text::texts(lines@) =~= was + reason_lines(prefix@, reasons@).subrange(0, i as int),
        decreases reasons@.len() - i,
    {
        text::say(
            lines,
            text::cat4(prefix, reasons[i].0.as_str(), ": ", reasons[i].1.as_str()),
        );
        i += 1;
    }
    let ghost all = reason_lines(prefix@, reasons@);
    assert(all.subrange(0, i as int) =~= all);
}

/// The report on rated files, as lines of text.
pub fn report_lines(rows: &Vec<Row>, want: Option<Band>, limit: usize) -> (r: Vec<String>)
    ensures
        reports(text::texts(r@), rows@, want, limit as int),
{
    let ghost n = rows@.len() as int;
    let ghost picked = kept_upto(rows@, want, n);
    let mut out: Vec<String> = Vec::new();
    let head: String = text::cat6(
        text::decimal(count_band(rows, Band::Green) as u64).as_str(),
        " GREEN, ",
        text::decimal(count_band(rows, Band::Yellow) as u64).as_str(),
        " YELLOW, ",
        text::decimal(count_band(rows, Band::Red) as u64).as_str(),
        " RED deleted files",
    );
    let ghost first = head@;
    text::say(&mut out, head);
    assert(text::texts(out@) =~= seq![first]);
    let mut kept: Vec<usize> = Vec::new();
    let mut values: Vec<u64> = Vec::new();
    let mut paths: Vec<String> = Vec::new();
    let mut i: usize = 0;
    while i < rows.len()
        invariant
            i <= rows@.len(),
            kept@.len() == values@.len() == paths@.len(),
            kept@.len() == kept_upto(rows@, want, i as int).len(),
            forall|k: int|
                0 <= k < kept@.len() ==> (#[trigger] kept@[k]) == kept_upto(
                    rows@,
                    want,
                    i as int,
                )[k] && kept@[k] < rows@.len(),
            forall|k: int|
                0 <= k < values@.len() ==> (#[trigger] values@[k]) == rows@[kept@[k] as int].value,
            forall|k: int|
                0 <= k < paths@.len() ==> (#[trigger] paths@[k])@ == rows@[kept@[k] as int].path@,
        decreases rows@.len() - i,
    {
        let keep: bool = match want {
            None => true,
            Some(b) => b == rows[i].band,
        };
        if keep {
            kept.push(i);
            values.push(rows[i].value);
            paths.push(rows[i].path.clone());
        }
        i += 1;
    }
    let o: Vec<usize> = sorting::order(&values, &paths);
    assert(values@ =~= values_of(rows@, picked));
    assert(text::texts(paths@) =~= paths_of(rows@, picked));
    let count: usize = if limit == 0 || kept.len() <= limit {
        kept.len()
    } else {
        limit
    };
    let mut k: usize = 0;
    while k < count
        invariant
            k <= count <= kept@.len() == o@.len(),
            kept@.len() == picked.len(),
            forall|x: int| 0 <= x < o@.len() ==> 0 <= (#[trigger] o@[x]) < kept@.len(),
            forall|x: int|
                0 <= x < kept@.len() ==> (#[trigger] kept@[x]) == picked[x] && kept@[x]
                    < rows@.len(),
            text::texts(out@) =~= seq![first] + rows_text(rows@, picked, o@, k as int),
        decreases count - k,
    {
        let r = &rows[kept[o[k]]];
        text::say(&mut out, "".to_owned());
        text::say(
            &mut out,
            text::cat7(
                output::pad(r.band_label.as_str(), 6).as_str(),
                " ",
                output::indent(text::decimal(r.value).as_str(), 3).as_str(),
                "  ",
                output::indent(output::human_bytes(r.size).as_str(), 9).as_str(),
                "  ",
                r.path.as_str(),
            ),
        );
        say_reasons(&mut out, "         ", &r.reasons);
        k += 1;
    }
    assert(sorting::in_order(
        values_of(rows@, picked),
        paths_of(rows@, picked),
        o@,
        0,
        picked.len() as int,
    ));
    out
}

} // verus!
