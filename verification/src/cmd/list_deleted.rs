//! Listing what a file system remembers of deleted files: names, sizes,
//! timestamps and the original folder tree.

use vstd::arithmetic::div_mod::*;
use vstd::prelude::*;
use vstd::string::*;
use crate::output;
use crate::output::{human_bytes, two_digits, Table};
use crate::sorting;
use crate::text;

verus! {

/// A run of clusters.
#[derive(Clone, Copy, Debug, PartialEq, Eq, Structural)]
pub struct Extent {
    pub start: u64,
    pub count: u64,
}

impl Extent {
    pub fn new(start: u64, count: u64) -> (r: Extent)
        ensures
            r == (Extent { start, count }),
    {
        Extent { start, count }
    }
}

/// Where a file's bytes are.
#[derive(Clone, Debug)]
pub enum DataLocation {
    /// Inside the metadata record itself.
    Resident(Vec<u8>),
    /// In these runs.
    Runs(Vec<Extent>),
    /// From this cluster on; the chain that followed it is lost.
    FirstClusterOnly(u64),
    Unknown,
}

#[derive(Clone, Copy, Debug, PartialEq, Eq, Structural)]
pub enum EntryKind {
    File,
    Directory,
}

#[derive(Clone, Copy, Debug, PartialEq, Eq, Structural)]
pub enum EntryState {
    Deleted,
    Allocated,
}

/// A file or a directory, as the file system's records have it.
#[derive(Clone, Debug)]
pub struct Entry {
    pub name: String,
    pub path: Option<String>,
    /// How the path is known.
    pub path_confidence: String,
    pub kind: EntryKind,
    pub state: EntryState,
    pub size: u64,
    /// Nanoseconds since 1970 began.
    pub created: Option<i64>,
    pub modified: Option<i64>,
    pub accessed: Option<i64>,
    /// Whether the timestamps are known to be UTC.
    pub utc_known: bool,
    pub location: DataLocation,
    pub notes: Vec<String>,
}

/// An entry as a report shows it.
#[derive(Clone, Debug)]
pub struct EntryJson {
    pub name: String,
    pub path: Option<String>,
    pub path_confidence: String,
    pub kind: String,
    pub state: String,
    pub size: u64,
    pub created: Option<i64>,
    pub modified: Option<i64>,
    pub accessed: Option<i64>,
    /// False for FAT, whose timestamps carry no timezone at all.
    pub timestamps_utc_known: bool,
    /// How the file's bytes are located, and whether that is a fact or a guess.
    pub layout: String,
    pub layout_is_exact: bool,
    pub extents: usize,
    pub notes: Vec<String>,
}

// ---------------------------------------------------------------------------
// Layout
// ---------------------------------------------------------------------------

/// What is said of a location, whether it is exact, and how many extents it
/// has.
pub open spec fn layout_of(loc: DataLocation) -> (Seq<char>, bool, int) {
    match loc {
        DataLocation::Resident(d) => (
            "resident ("@ + text::dec(d@.len() as int) + " bytes)"@,
            true,
            0,
        ),
        DataLocation::Runs(r) => (
            text::dec(r@.len() as int) + " extent"@ + (if r@.len() == 1 {
                ""@
            } else {
                "s"@
            }),
            true,
            r@.len() as int,
        ),
        DataLocation::FirstClusterOnly(c) => (
            "first cluster "@ + text::dec(c as int) + " only (chain lost on delete)"@,
            false,
            0,
        ),
        DataLocation::Unknown => ("unknown"@, false, 0),
    }
}

/// Describe where a file's bytes are, and be explicit about whether that is
/// known or assumed: a FAT deleted file's location is a starting cluster and a
/// hope.
pub fn describe_layout(loc: &DataLocation) -> (r: (String, bool, usize))
    ensures
        (r.0@, r.1, r.2 as int) == layout_of(*loc),
{
    match loc {
        DataLocation::Resident(d) => (
            text::cat3("resident (", text::decimal(d.len() as u64).as_str(), " bytes)"),
            true,
            0,
        ),
        DataLocation::Runs(r) => {
            let plural: &str = if r.len() == 1 {
                ""
            } else {
                "s"
            };
            (
                text::cat3(text::decimal(r.len() as u64).as_str(), " extent", plural),
                true,
                r.len(),
            )
        },
        DataLocation::FirstClusterOnly(c) => (
            text::cat3(
                "first cluster ",
                text::decimal(*c).as_str(),
                " only (chain lost on delete)",
            ),
            false,
            0,
        ),
        DataLocation::Unknown => ("unknown".to_owned(), false, 0),
    }
}

// ---------------------------------------------------------------------------
// Time
// ---------------------------------------------------------------------------

/// A date: year, month and day of the month.
pub struct Date {
    pub year: int,
    pub month: int,
    pub day: int,
}

/// Whether a year has a leap day.
pub open spec fn leap(year: int) -> bool {
    year % 4 == 0 && (year % 100 != 0 || year % 400 == 0)
}

pub open spec fn days_in_month(year: int, month: int) -> int {
    if month == 2 {
        if leap(year) {
            29
        } else {
            28
        }
    } else if month == 4 || month == 6 || month == 9 || month == 11 {
        30
    } else {
        31
    }
}

/// How many days lie between the start of a year and the start of a month of
/// it.
pub open spec fn days_before_month(year: int, month: int) -> int
    decreases month,
{
    if month <= 1 {
        0
    } else {
        days_before_month(year, month - 1) + days_in_month(year, month - 1)
    }
}

/// How many leap days there are before a year.
pub open spec fn leap_days(year: int) -> int {
    let y = year - 1;
    y / 4 - y / 100 + y / 400
}

/// How many days lie between 1 January 1970 and 1 January of a year.
pub open spec fn days_before_year(year: int) -> int {
    365 * (year - 1970) + leap_days(year) - leap_days(1970)
}

impl Date {
    /// Whether the calendar has this date.
    pub open spec fn in_calendar(self) -> bool {
        &&& 1 <= self.month <= 12
        &&& 1 <= self.day <= days_in_month(self.year, self.month)
    }

    /// How many days the date is after 1 January 1970.
    pub open spec fn number(self) -> int {
        days_before_year(self.year) + days_before_month(self.year, self.month) + self.day - 1
    }
}

/// The date `days` days after 1 January 1970. Years are counted from March, so
/// that the leap day is the last of its year.
pub open spec fn date_of(days: int) -> Date {
    let z = days + 719_468;
    let era = z / 146_097;
    let doe = z % 146_097;
    let yoe = (doe - doe / 1460 + doe / 36_524 - doe / 146_096) / 365;
    let doy = doe - (365 * yoe + yoe / 4 - yoe / 100);
    let mp = (5 * doy + 2) / 153;
    let month = if mp < 10 {
        mp + 3
    } else {
        mp - 9
    };
    Date {
        year: yoe + era * 400 + (if month <= 2 {
            1int
        } else {
            0
        }),
        month,
        day: doy - (153 * mp + 2) / 5 + 1,
    }
}

/// The year of an era of 400 years, counted from March, that a day of the era
/// falls in, and the day of that year.
proof fn year_of_era(doe: int) -> (r: (int, int))
    requires
        0 <= doe < 146_097,
    ensures
        r.0 == (doe - doe / 1460 + doe / 36_524 - doe / 146_096) / 365,
        r.1 == doe - (365 * r.0 + r.0 / 4 - r.0 / 100),
        0 <= r.0 < 400,
        0 <= r.1 <= 365,
        r.1 == 365 ==> r.0 == 399 || (r.0 % 4 == 3 && r.0 % 100 != 99),
{
    let yoe = (doe - doe / 1460 + doe / 36_524 - doe / 146_096) / 365;
    let doy = doe - (365 * yoe + yoe / 4 - yoe / 100);
    (yoe, doy)
}

/// How many days a year's months take up to each.
proof fn months_so_far(year: int)
    ensures
        days_before_month(year, 1) == 0,
        days_before_month(year, 2) == 31,
        forall|m: int|
            3 <= m <= 12 ==> #[trigger] days_before_month(year, m) == 59 + (153 * (m - 3) + 2) / 5
                + (if leap(year) {
                1int
            } else {
                0
            }),
{
    reveal_with_fuel(days_before_month, 13);
    assert forall|m: int| 3 <= m <= 12 implies #[trigger] days_before_month(year, m) == 59 + (153
        * (m - 3) + 2) / 5 + (if leap(year) {
        1int
    } else {
        0
    }) by {
        if m == 3 {
        } else if m == 4 {
        } else if m == 5 {
        } else if m == 6 {
        } else if m == 7 {
        } else if m == 8 {
        } else if m == 9 {
        } else if m == 10 {
        } else if m == 11 {
        } else {
        }
    }
}

/// The years before one hold one multiple of each of the three divisors less,
/// where the year itself is such a multiple.
proof fn one_year_on(y: int)
    ensures
        (y - 1) / 4 == y / 4 - (if y % 4 == 0 {
            1int
        } else {
            0
        }),
        (y - 1) / 100 == y / 100 - (if y % 100 == 0 {
            1int
        } else {
            0
        }),
        (y - 1) / 400 == y / 400 - (if y % 400 == 0 {
            1int
        } else {
            0
        }),
        y % 400 == 0 ==> y % 100 == 0,
        y % 100 == 0 ==> y % 4 == 0,
{
    assert(y == 4 * (y / 4) + y % 4);
    assert(y == 100 * (y / 100) + y % 100);
    assert(y == 400 * (y / 400) + y % 400);
}

/// Leap days up to the end of a year, counted by eras of 400 years.
proof fn leaps_by_era(era: int, yoe: int)
    requires
        0 <= yoe < 400,
    ensures
        ({
            let y = yoe + era * 400;
            &&& leap_days(y + 1) == 97 * era + yoe / 4 - yoe / 100
            &&& leap_days(y + 1) == leap_days(y) + (if leap(y) {
                1int
            } else {
                0
            })
        }),
{
    let y = yoe + era * 400;
    assert(y / 4 == 100 * era + yoe / 4);
    assert(y / 100 == 4 * era + yoe / 100);
    assert(y / 400 == era);
    one_year_on(y);
}

/// The years that a leap day ends, counted from March.
proof fn leaps_at_the_end(era: int, yoe: int)
    requires
        0 <= yoe < 400,
        yoe == 399 || (yoe % 4 == 3 && yoe % 100 != 99),
    ensures
        leap(yoe + era * 400 + 1),
{
    let y = yoe + era * 400 + 1;
    let four = (yoe + 1) / 4;
    assert(yoe + 1 == 4 * four);
    lemma_fundamental_div_mod_converse(y, 4, 100 * era + four, 0);
    if yoe == 399 {
        lemma_fundamental_div_mod_converse(y, 400, era + 1, 0);
    } else {
        let hundred = (yoe + 1) / 100;
        let rest = (yoe + 1) % 100;
        assert(yoe + 1 == 100 * hundred + rest);
        assert(rest != 0);
        lemma_fundamental_div_mod_converse(y, 100, 4 * era + hundred, rest);
    }
}

/// The day of the month from the day of a year counted from March.
proof fn day_of_month(doy: int)
    requires
        0 <= doy <= 365,
    ensures
        ({
            let mp = (5 * doy + 2) / 153;
            let day = doy - (153 * mp + 2) / 5 + 1;
            &&& 0 <= mp <= 11
            &&& 1 <= day <= 31
            &&& mp == 1 || mp == 3 || mp == 6 || mp == 8 ==> day <= 30
            &&& mp == 11 ==> day <= 29
            &&& mp == 11 && day == 29 ==> doy == 365
        }),
{
}

/// The calendar: the date given for a day is one that there is, and it is that
/// many days after 1 January 1970.
pub proof fn the_date_is_right(days: int)
    ensures
        date_of(days).in_calendar(),
        date_of(days).number() == days,
{
    let z = days + 719_468;
    let era = z / 146_097;
    let doe = z % 146_097;
    let (yoe, doy) = year_of_era(doe);
    let d = date_of(days);
    let mp = (5 * doy + 2) / 153;
    day_of_month(doy);
    leaps_by_era(era, yoe);
    if doy == 365 {
        leaps_at_the_end(era, yoe);
    }
    months_so_far(d.year);
    assert(leap_days(1970) == 477);
    assert(z == 146_097 * era + doe);
    if mp < 10 {
        assert(d.year == yoe + era * 400);
        assert(days_before_month(d.year, d.month) == 59 + (153 * mp + 2) / 5 + (if leap(d.year) {
            1int
        } else {
            0
        }));
    } else {
        assert(d.year == yoe + era * 400 + 1);
        assert(d.month == 1 || d.month == 2);
    }
}

/// A timestamp as text: date and time of day to the minute, with `?` after it
/// where the timezone is not recorded.
pub open spec fn time_text(ns: Option<i64>, utc_known: bool) -> Seq<char> {
    match ns {
        None => "-"@,
        Some(ns) => {
            let secs = ns as int / 1_000_000_000;
            let date = date_of(secs / 86_400);
            let tod = secs % 86_400;
            text::zero_padded(text::dec(date.year), 4) + "-"@ + output::two(date.month) + "-"@
                + output::two(date.day) + " "@ + output::two(tod / 3600) + ":"@ + output::two(
                (tod % 3600) / 60,
            ) + (if utc_known {
                ""@
            } else {
                "?"@
            })
        },
    }
}

/// Format a timestamp, in nanoseconds since 1970 began, as UTC.
///
/// A trailing `?` marks a FAT timestamp, which has no timezone recorded, so
/// the instant is only as good as the writing machine's clock setting.
pub fn format_time(ns: Option<i64>, utc_known: bool) -> (r: String)
    ensures
        r@ == time_text(ns, utc_known),
{
    match ns {
        None => "-".to_owned(),
        Some(ns) => {
            // From 1 March of the year 0 on, nothing is negative.
            let t: u128 = (ns as i128 + 62_162_035_200_000_000_000) as u128;
            let total: u64 = (t / 1_000_000_000) as u64;
            let tod: u64 = total % 86_400;
            let z: u64 = total / 86_400;
            proof {
                let secs = ns as int / 1_000_000_000;
                assert(total == secs + 62_162_035_200);
                assert(tod == secs % 86_400);
                assert(z == secs / 86_400 + 719_468);
                assert(z % 146_097 < 146_097);
                year_of_era(z as int % 146_097);
                day_of_month(
                    {
                        let doe = z as int % 146_097;
                        let yoe = (doe - doe / 1460 + doe / 36_524 - doe / 146_096) / 365;
                        doe - (365 * yoe + yoe / 4 - yoe / 100)
                    },
                );
            }
            let era: u64 = z / 146_097;
            let doe: u64 = z % 146_097;
            let yoe: u64 = (doe - doe / 1460 + doe / 36_524 - doe / 146_096) / 365;
            let doy: u64 = doe - (365 * yoe + yoe / 4 - yoe / 100);
            let mp: u64 = (5 * doy + 2) / 153;
            let day: u64 = doy - (153 * mp + 2) / 5 + 1;
            let month: u64 = if mp < 10 {
                mp + 3
            } else {
                mp - 9
            };
            let year: u64 = if month <= 2 {
                yoe + era * 400 + 1
            } else {
                yoe + era * 400
            };
            let date: String = text::cat6(
                text::zeros_before(text::decimal(year).as_str(), 4).as_str(),
                "-",
                two_digits(month).as_str(),
                "-",
                two_digits(day).as_str(),
                " ",
            );
            let mark: &str = if utc_known {
                ""
            } else {
                "?"
            };
            text::cat5(
                date.as_str(),
                two_digits(tod / 3600).as_str(),
                ":",
                two_digits((tod % 3600) / 60).as_str(),
                mark,
            )
        },
    }
}

// ---------------------------------------------------------------------------
// Entries
// ---------------------------------------------------------------------------

pub open spec fn kind_name(k: EntryKind) -> Seq<char> {
    match k {
        EntryKind::File => "file"@,
        EntryKind::Directory => "dir"@,
    }
}

pub open spec fn state_name(s: EntryState) -> Seq<char> {
    match s {
        EntryState::Deleted => "deleted"@,
        EntryState::Allocated => "allocated"@,
    }
}

/// The characters of a text that may be missing.
pub open spec fn maybe_text(s: Option<String>) -> Option<Seq<char>> {
    match s {
        Some(s) => Some(s@),
        None => None,
    }
}

/// Whether `j` shows the entry `e`.
pub open spec fn shows(j: EntryJson, e: Entry) -> bool {
    &&& j.name@ == e.name@
    &&& maybe_text(j.path) == maybe_text(e.path)
    &&& j.path_confidence@ == e.path_confidence@
    &&& j.kind@ == kind_name(e.kind)
    &&& j.state@ == state_name(e.state)
    &&& j.size == e.size
    &&& j.created == e.created
    &&& j.modified == e.modified
    &&& j.accessed == e.accessed
    &&& j.timestamps_utc_known == e.utc_known
    &&& (j.layout@, j.layout_is_exact, j.extents as int) == layout_of(e.location)
    &&& text::texts(j.notes@) == text::texts(e.notes@)
}

fn copy_maybe(s: &Option<String>) -> (r: Option<String>)
    ensures
        maybe_text(r) == maybe_text(*s),
{
    match s {
        Some(t) => Some(t.clone()),
        None => None,
    }
}

fn copy_lines(v: &Vec<String>) -> (r: Vec<String>)
    ensures
        text::texts(r@) == text::texts(v@),
{
    let mut out: Vec<String> = Vec::new();
    text::say_all(&mut out, v);
    assert(text::texts(out@) =~= text::texts(v@));
    out
}

/// An entry as a report shows it.
pub fn to_json(e: &Entry) -> (r: EntryJson)
    ensures
        shows(r, *e),
{
    let (layout, exact, extents): (String, bool, usize) = describe_layout(&e.location);
    let kind: &str = match e.kind {
        EntryKind::File => "file",
        EntryKind::Directory => "dir",
    };
    let state: &str = match e.state {
        EntryState::Deleted => "deleted",
        EntryState::Allocated => "allocated",
    };
    EntryJson {
        name: e.name.clone(),
        path: copy_maybe(&e.path),
        path_confidence: e.path_confidence.clone(),
        kind: kind.to_owned(),
        state: state.to_owned(),
        size: e.size,
        created: e.created,
        modified: e.modified,
        accessed: e.accessed,
        timestamps_utc_known: e.utc_known,
        layout,
        layout_is_exact: exact,
        extents,
        notes: copy_lines(&e.notes),
    }
}

/// What to list.
#[derive(Clone, Debug)]
pub struct Selection {
    /// Also files that are still present.
    pub include_allocated: bool,
    /// Also directories.
    pub include_dirs: bool,
    /// Only entries whose path, or name where no path is known, contains this
    /// in any case.
    pub filter: Option<String>,
}

/// What an entry is sorted and filtered by: its path, or its name where no path
/// is known.
pub open spec fn label(e: Entry) -> Seq<char> {
    match e.path {
        Some(p) => p@,
        None => e.name@,
    }
}

/// Whether `hay` contains `needle`, in any case.
pub open spec fn holds_anycase(hay: Seq<char>, needle: Seq<char>) -> bool {
    text::holds(text::lowered(hay), text::lowered(needle))
}

/// Whether `hay` contains `needle`, in any case.
pub fn contains_anycase(hay: &str, needle: &str) -> (r: bool)
    ensures
        r == holds_anycase(hay@, needle@),
{
    text::contains(text::to_lower(hay).as_str(), text::to_lower(needle).as_str())
}

/// Whether an entry is to be listed.
pub open spec fn selected(e: Entry, s: Selection) -> bool {
    &&& e.state == EntryState::Allocated ==> s.include_allocated
    &&& e.kind == EntryKind::Directory ==> s.include_dirs
    &&& s.filter matches Some(f) ==> holds_anycase(label(e), f@)
}

/// The indices of those of the first `n` entries that are to be listed.
pub open spec fn selected_upto(entries: Seq<Entry>, s: Selection, n: int) -> Seq<int>
    decreases n,
{
    if n <= 0 {
        Seq::empty()
    } else {
        let before = selected_upto(entries, s, n - 1);
        if selected(entries[n - 1], s) {
            before.push(n - 1)
        } else {
            before
        }
    }
}

/// The labels of the chosen entries.
pub open spec fn labels(entries: Seq<Entry>, chosen: Seq<int>) -> Seq<Seq<char>> {
    Seq::new(chosen.len(), |i: int| label(entries[chosen[i]]))
}

/// Whether `r` is the listing of `entries`: those that are to be listed, sorted
/// by path, or by name where no path is known, and otherwise as they stood.
pub open spec fn listing(r: Seq<EntryJson>, entries: Seq<Entry>, s: Selection) -> bool {
    let chosen = selected_upto(entries, s, entries.len() as int);
    let n = chosen.len();
    &&& r.len() == n
    &&& exists|o: Seq<usize>|
        {
            &&& #[trigger] sorting::in_order(
                sorting::alike(n),
                labels(entries, chosen),
                o,
                0,
                n as int,
            )
            &&& forall|i: int| 0 <= i < n ==> shows(#[trigger] r[i], entries[chosen[o[i] as int]])
        }
}

fn is_selected(e: &Entry, s: &Selection) -> (r: bool)
    ensures
        r == selected(*e, *s),
{
    if e.state == EntryState::Allocated && !s.include_allocated {
        return false;
    }
    if e.kind == EntryKind::Directory && !s.include_dirs {
        return false;
    }
    match &s.filter {
        None => true,
        Some(f) => match &e.path {
            Some(p) => contains_anycase(p.as_str(), f.as_str()),
            None => contains_anycase(e.name.as_str(), f.as_str()),
        },
    }
}

/// The entries to list, sorted by path.
pub fn list(entries: &Vec<Entry>, s: &Selection) -> (r: Vec<EntryJson>)
    ensures
        listing(r@, entries@, *s),
{
    let mut chosen: Vec<usize> = Vec::new();
    let mut values: Vec<u64> = Vec::new();
    let mut keys: Vec<String> = Vec::new();
    let mut i: usize = 0;
    while i < entries.len()
        invariant
            i <= entries@.len(),
            chosen@.len() == keys@.len() == values@.len(),
            chosen@.len() == selected_upto(entries@, *s, i as int).len(),
            forall|k: int|
                0 <= k < chosen@.len() ==> (#[trigger] chosen@[k]) == selected_upto(
                    entries@,
                    *s,
                    i as int,
                )[k] && chosen@[k] < entries@.len(),
            forall|k: int|
                0 <= k < keys@.len() ==> (#[trigger] keys@[k])@ == label(
                    entries@[chosen@[k] as int],
                ),
            forall|k: int| 0 <= k < values@.len() ==> #[trigger] values@[k] == 0,
        decreases entries@.len() - i,
    {
        let e = &entries[i];
        if is_selected(e, s) {
            chosen.push(i);
            values.push(0);
            match &e.path {
                Some(p) => keys.push(p.clone()),
                None => keys.push(e.name.clone()),
            }
        }
        i += 1;
    }
    let o: Vec<usize> = sorting::order(&values, &keys);
    let ghost picked = selected_upto(entries@, *s, entries@.len() as int);
    let ghost n = picked.len();
    proof {
        assert(values@ =~= sorting::alike(n));
        assert(text::texts(keys@) =~= labels(entries@, picked));
    }
    let mut out: Vec<EntryJson> = Vec::new();
    let mut k: usize = 0;
    while k < o.len()
        invariant
            k <= o@.len() == n,
            n == chosen@.len(),
            picked.len() == n,
            forall|x: int| 0 <= x < o@.len() ==> 0 <= (#[trigger] o@[x]) < n,
            forall|x: int|
                0 <= x < chosen@.len() ==> (#[trigger] chosen@[x]) == picked[x] && chosen@[x]
                    < entries@.len(),
            out@.len() == k,
            forall|x: int|
                0 <= x < k ==> shows(#[trigger] out@[x], entries@[picked[o@[x] as int]]),
        decreases o@.len() - k,
    {
        let at: usize = chosen[o[k]];
        out.push(to_json(&entries[at]));
        k += 1;
    }
    assert(sorting::in_order(sorting::alike(n), labels(entries@, picked), o@, 0, n as int));
    out
}

// ---------------------------------------------------------------------------
// Volumes
// ---------------------------------------------------------------------------

/// What a scan of one volume found.
#[derive(Clone, Debug)]
pub struct VolumeReport {
    pub offset_bytes: u64,
    pub partition_origin: String,
    pub filesystem: String,
    pub deleted_count: usize,
    pub allocated_count: usize,
    pub damaged_count: usize,
    pub entries: Vec<EntryJson>,
    pub notes: Vec<String>,
    pub damaged: Vec<String>,
}

/// How many of the first `n` entries are in a state.
pub open spec fn tally(entries: Seq<Entry>, state: EntryState, n: int) -> int
    decreases n,
{
    if n <= 0 {
        0
    } else {
        tally(entries, state, n - 1) + (if entries[n - 1].state == state {
            1int
        } else {
            0
        })
    }
}

fn count(entries: &Vec<Entry>, state: EntryState) -> (r: usize)
    ensures
        r == tally(entries@, state, entries@.len() as int),
{
    let mut n: usize = 0;
    let mut i: usize = 0;
    while i < entries.len()
        invariant
            n <= i <= entries@.len(),
            n == tally(entries@, state, i as int),
        decreases entries@.len() - i,
    {
        if entries[i].state == state {
            n += 1;
        }
        i += 1;
    }
    n
}

/// The first `n` of a list, or all of it where it is shorter.
pub open spec fn first<T>(s: Seq<T>, n: int) -> Seq<T> {
    if s.len() <= n {
        s
    } else {
        s.subrange(0, n)
    }
}

/// The report on a volume: how many entries it has in each state, the listing,
/// and the first twenty damaged records.
pub fn volume(
    offset: u64,
    origin: String,
    filesystem: String,
    entries: &Vec<Entry>,
    notes: &Vec<String>,
    damaged: &Vec<String>,
    s: &Selection,
) -> (r: VolumeReport)
    ensures
        r.offset_bytes == offset,
        r.partition_origin@ == origin@,
        r.filesystem@ == filesystem@,
        r.deleted_count == tally(entries@, EntryState::Deleted, entries@.len() as int),
        r.allocated_count == tally(entries@, EntryState::Allocated, entries@.len() as int),
        r.damaged_count == damaged@.len(),
        listing(r.entries@, entries@, *s),
        text::texts(r.notes@) == text::texts(notes@),
        text::texts(r.damaged@) == first(text::texts(damaged@), 20),
{
    let mut some: Vec<String> = Vec::new();
    let mut i: usize = 0;
    while i < damaged.len() && i < 20
        invariant
            i <= damaged@.len(),
            i <= 20,
            text::texts(some@) =~= text::texts(damaged@).subrange(0, i as int),
        decreases damaged@.len() - i,
    {
        text::say(&mut some, damaged[i].clone());
        i += 1;
    }
    assert(text::texts(some@) =~= first(text::texts(damaged@), 20));
    VolumeReport {
        offset_bytes: offset,
        partition_origin: origin,
        filesystem,
        deleted_count: count(entries, EntryState::Deleted),
        allocated_count: count(entries, EntryState::Allocated),
        damaged_count: damaged.len(),
        entries: list(entries, s),
        notes: copy_lines(notes),
        damaged: some,
    }
}

/// The report on a volume that could not be scanned.
pub fn unreadable(offset: u64, origin: String, why: String) -> (r: VolumeReport)
    ensures
        r.offset_bytes == offset,
        r.partition_origin@ == origin@,
        r.filesystem@ == "unreadable"@,
        r.deleted_count == 0,
        r.allocated_count == 0,
        r.damaged_count == 0,
        r.entries@.len() == 0,
        text::texts(r.notes@) == seq![why@],
        r.damaged@.len() == 0,
{
    let ghost w = why@;
    let mut notes: Vec<String> = Vec::new();
    notes.push(why);
    assert(text::texts(notes@) =~= seq![w]);
    VolumeReport {
        offset_bytes: offset,
        partition_origin: origin,
        filesystem: "unreadable".to_owned(),
        deleted_count: 0,
        allocated_count: 0,
        damaged_count: 0,
        entries: Vec::new(),
        notes,
        damaged: Vec::new(),
    }
}

/// An entry's path as it is printed: never a guessed path as if it were known.
pub open spec fn path_text(e: EntryJson) -> Seq<char> {
    if e.path is Some && (e.path_confidence@ == "exact"@ || e.path_confidence@ == "traversed"@) {
        e.path->Some_0@
    } else {
        "?/"@ + e.name@ + "  ["@ + e.path_confidence@ + "]"@
    }
}

/// An entry as a row of the table.
pub open spec fn entry_row(e: EntryJson) -> Seq<Seq<char>> {
    seq![
        e.state@,
        output::size_text(e.size as int),
        time_text(e.modified, e.timestamps_utc_known),
        e.layout@,
        path_text(e),
    ]
}

pub open spec fn entry_heads() -> Seq<Seq<char>> {
    seq!["state"@, "size"@, "modified"@, "layout"@, "path"@]
}

/// How many of `n` rows are printed; a limit of zero is none.
pub open spec fn shown(n: int, limit: int) -> int {
    if limit == 0 || n <= limit {
        n
    } else {
        limit
    }
}

/// The report on a volume, as lines of text.
pub open spec fn volume_text(v: VolumeReport, limit: int) -> Seq<Seq<char>> {
    let n = v.entries@.len() as int;
    let head = "filesystem: "@ + v.filesystem@ + "  ("@ + text::dec(v.deleted_count as int)
        + " deleted, "@ + text::dec(v.allocated_count as int) + " allocated, "@ + text::dec(
        v.damaged_count as int,
    ) + " damaged records)"@;
    let listed = if n == 0 {
        seq!["No matching entries."@]
    } else {
        output::table_lines(
            entry_heads(),
            Seq::new(shown(n, limit) as nat, |i: int| entry_row(v.entries@[i])),
        ) + (if shown(n, limit) < n {
            seq![
                ""@,
                "("@ + text::dec(n - limit)
                    + " more entries; pass --limit 0 to show all)"@,
            ]
        } else {
            Seq::<Seq<char>>::empty()
        })
    };
    seq![head, ""@] + listed + seq![""@] + text::prefixed("note: "@, text::texts(v.notes@))
        + text::prefixed("damaged: "@, text::texts(v.damaged@))
}

fn entry_path(e: &EntryJson) -> (r: String)
    ensures
        r@ == path_text(*e),
{
    let conf: &str = e.path_confidence.as_str();
    match &e.path {
        Some(p) => if text::same_text(conf, "exact") || text::same_text(conf, "traversed") {
            p.clone()
        } else {
            text::cat5("?/", e.name.as_str(), "  [", conf, "]")
        },
        None => text::cat5("?/", e.name.as_str(), "  [", conf, "]"),
    }
}

/// The report on a volume, as lines of text.
pub fn volume_lines(v: &VolumeReport, limit: usize) -> (r: Vec<String>)
    ensures
        text::texts(r@) == volume_text(*v, limit as int),
{
    let mut out: Vec<String> = Vec::new();
    let start: String = text::cat5(
        "filesystem: ",
        v.filesystem.as_str(),
        "  (",
        text::decimal(v.deleted_count as u64).as_str(),
        " deleted, ",
    );
    let head: String = text::cat5(
        start.as_str(),
        text::decimal(v.allocated_count as u64).as_str(),
        " allocated, ",
        text::decimal(v.damaged_count as u64).as_str(),
        " damaged records)",
    );
    let ghost first_line = head@;
    text::say(&mut out, head);
    text::say(&mut out, "".to_owned());
    assert(text::texts(out@) =~= seq![first_line, ""@]);
    let n: usize = v.entries.len();
    if n == 0 {
        text::say(&mut out, "No matching entries.".to_owned());
        assert(text::texts(out@) =~= seq![first_line, ""@] + seq!["No matching entries."@]);
    } else {
        let count: usize = if limit == 0 || n <= limit {
            n
        } else {
            limit
        };
        let heads: [&str; 5] = ["state", "size", "modified", "layout", "path"];
        let mut t = Table::new(heads.as_slice());
        assert(t.heads() =~= entry_heads());
        let mut i: usize = 0;
        while i < count
            invariant
                i <= count <= n == v.entries@.len(),
                t.wf(),
                t.heads() == entry_heads(),
                t.body() =~= Seq::new(i as nat, |i: int| entry_row(v.entries@[i])),
            decreases count - i,
        {
            let e = &v.entries[i];
            let mut row: Vec<String> = Vec::new();
            row.push(e.state.clone());
            row.push(human_bytes(e.size));
            row.push(format_time(e.modified, e.timestamps_utc_known));
            row.push(e.layout.clone());
            row.push(entry_path(e));
            assert(text::texts(row@) =~= entry_row(v.entries@[i as int]));
            t.row(row);
            i += 1;
        }
        text::say_all(&mut out, &t.lines());
        if limit != 0 && n > limit {
            text::say(&mut out, "".to_owned());
            text::say(
                &mut out,
                text::cat3(
                    "(",
                    text::decimal((n - limit) as u64).as_str(),
                    " more entries; pass --limit 0 to show all)",
                ),
            );
        }
    }
    text::say(&mut out, "".to_owned());
    text::say_prefixed(&mut out, "note: ", &v.notes);
    text::say_prefixed(&mut out, "damaged: ", &v.damaged);
    assert(text::texts(out@) =~= volume_text(*v, limit as int));
    out
}

// ---------------------------------------------------------------------------
// Partitions
// ---------------------------------------------------------------------------

/// A partition, as discovery reports it.
#[derive(Clone, Debug)]
pub struct Partition {
    pub index: usize,
    /// First sector.
    pub start: u64,
    pub sectors: u64,
    /// First byte.
    pub offset: u64,
    pub fs: String,
    /// Whether the file system can be read.
    pub supported: bool,
    pub origin: String,
    /// Whether it was inferred rather than read from a partition table.
    pub inferred: bool,
    pub confidence: u8,
    pub label: Option<String>,
    pub evidence: Vec<String>,
}

/// Whether a partition is to be scanned: the one asked for whatever it holds,
/// or else each whose file system can be read.
pub open spec fn is_chosen(p: Partition, want: Option<usize>) -> bool {
    match want {
        Some(n) => p.index == n,
        None => p.supported,
    }
}

/// Where a partition begins, and what it is called in the report.
pub open spec fn named_offset(p: Partition) -> (int, Seq<char>) {
    (
        p.offset as int,
        "partition "@ + text::dec(p.index as int) + " ("@ + p.fs@ + ", "@ + p.origin@ + ")"@,
    )
}

/// The offsets of those of the first `n` partitions that are to be scanned.
pub open spec fn chosen_upto(parts: Seq<Partition>, want: Option<usize>, n: int) -> Seq<
    (int, Seq<char>),
>
    decreases n,
{
    if n <= 0 {
        Seq::empty()
    } else {
        let before = chosen_upto(parts, want, n - 1);
        if is_chosen(parts[n - 1], want) {
            before.push(named_offset(parts[n - 1]))
        } else {
            before
        }
    }
}

/// Offsets with their names.
pub open spec fn offsets(v: Seq<(u64, String)>) -> Seq<(int, Seq<char>)> {
    Seq::new(v.len(), |i: int| (v[i].0 as int, v[i].1@))
}

/// Which volumes to scan.
pub fn choose_partitions(parts: &Vec<Partition>, want: Option<usize>) -> (r: Vec<(u64, String)>)
    ensures
        offsets(r@) == chosen_upto(parts@, want, parts@.len() as int),
{
    let mut out: Vec<(u64, String)> = Vec::new();
    let mut i: usize = 0;
    while i < parts.len()
        invariant
            i <= parts@.len(),
            offsets(out@) =~= chosen_upto(parts@, want, i as int),
        decreases parts@.len() - i,
    {
        let p = &parts[i];
        let take: bool = match want {
            Some(n) => p.index == n,
            None => p.supported,
        };
        if take {
            let name: String = text::cat7(
                "partition ",
                text::decimal(p.index as u64).as_str(),
                " (",
                p.fs.as_str(),
                ", ",
                p.origin.as_str(),
                ")",
            );
            let ghost was = out@;
            out.push((p.offset, name));
            assert(offsets(out@) =~= offsets(was).push(named_offset(*p)));
        }
        i += 1;
    }
    out
}

pub open spec fn partition_heads() -> Seq<Seq<char>> {
    seq!["#"@, "start LBA"@, "sectors"@, "fs"@, "origin"@, "conf"@, "label"@]
}

pub open spec fn partition_row(p: Partition) -> Seq<Seq<char>> {
    seq![
        text::dec(p.index as int),
        text::dec(p.start as int),
        text::dec(p.sectors as int),
        p.fs@,
        p.origin@,
        text::dec(p.confidence as int) + "%"@,
        match p.label {
            Some(l) => l@,
            None => "-"@,
        },
    ]
}

/// What is said of those of the first `n` partitions that were inferred.
pub open spec fn inferred_upto(parts: Seq<Partition>, n: int) -> Seq<Seq<char>>
    decreases n,
{
    if n <= 0 {
        Seq::empty()
    } else {
        let before = inferred_upto(parts, n - 1);
        let p = parts[n - 1];
        if p.inferred {
            before + seq![
                "note: partition "@ + text::dec(p.index as int)
                    + " was inferred, not read from a partition table:"@,
            ] + text::prefixed("        "@, text::texts(p.evidence@))
        } else {
            before
        }
    }
}

/// The partition table, as lines of text.
pub open spec fn partitions_text(parts: Seq<Partition>, notes: Seq<Seq<char>>) -> Seq<Seq<char>> {
    if parts.len() == 0 {
        seq!["No partitions found."@]
    } else {
        output::table_lines(
            partition_heads(),
            Seq::new(parts.len(), |i: int| partition_row(parts[i])),
        ) + text::prefixed("note: "@, notes) + inferred_upto(parts, parts.len() as int) + seq![""@]
    }
}

/// The partition table, as lines of text. An inferred partition is a
/// hypothesis, and the reader is told.
pub fn partition_lines(parts: &Vec<Partition>, notes: &Vec<String>) -> (r: Vec<String>)
    ensures
        text::texts(r@) == partitions_text(parts@, text::texts(notes@)),
{
    let mut out: Vec<String> = Vec::new();
    if parts.len() == 0 {
        text::say(&mut out, "No partitions found.".to_owned());
        assert(text::texts(out@) =~= seq!["No partitions found."@]);
        return out;
    }
    let heads: [&str; 7] = ["#", "start LBA", "sectors", "fs", "origin", "conf", "label"];
    let mut t = Table::new(heads.as_slice());
    assert(t.heads() =~= partition_heads());
    let mut i: usize = 0;
    while i < parts.len()
        invariant
            i <= parts@.len(),
            t.wf(),
            t.heads() == partition_heads(),
            t.body() =~= Seq::new(i as nat, |i: int| partition_row(parts@[i])),
        decreases parts@.len() - i,
    {
        let p = &parts[i];
        let mut row: Vec<String> = Vec::new();
        row.push(text::decimal(p.index as u64));
        row.push(text::decimal(p.start));
        row.push(text::decimal(p.sectors));
        row.push(p.fs.clone());
        row.push(p.origin.clone());
        row.push(text::cat2(text::decimal(p.confidence as u64).as_str(), "%"));
        match &p.label {
            Some(l) => row.push(l.clone()),
            None => row.push("-".to_owned()),
        }
        assert(text::texts(row@) =~= partition_row(parts@[i as int]));
        t.row(row);
        i += 1;
    }
    text::say_all(&mut out, &t.lines());
    text::say_prefixed(&mut out, "note: ", notes);
    let ghost so_far = text::texts(out@);
    let mut k: usize = 0;
    while k < parts.len()
        invariant
            k <= parts@.len(),
            text::texts(out@) =~= so_far + inferred_upto(parts@, k as int),
        decreases parts@.len() - k,
    {
        let p = &parts[k];
        if p.inferred {
            text::say(
                &mut out,
                text::cat3(
                    "note: partition ",
                    text::decimal(p.index as u64).as_str(),
                    " was inferred, not read from a partition table:",
                ),
            );
            text::say_prefixed(&mut out, "        ", &p.evidence);
        }
        k += 1;
    }
    text::say(&mut out, "".to_owned());
    assert(text::texts(out@) =~= partitions_text(parts@, text::texts(notes@)));
    out
}

} // verus!
