//! Text for people: sizes, durations, tables.

use vstd::prelude::*;
use vstd::string::*;
use crate::text;

verus! {

/// The integer nearest to `p / q`; halfway between two, the even one.
pub open spec fn nearest(p: int, q: int) -> int {
    let whole = p / q;
    let rest = p % q;
    if 2 * rest < q || (2 * rest == q && whole % 2 == 0) {
        whole
    } else {
        whole + 1
    }
}

fn round(p: u128, q: u128) -> (r: u128)
    requires
        0 < q <= 0xFFFF_FFFF_FFFF_FFFF_FFFF_FFFF,
        p < 0x1000_0000_0000_0000_0000_0000_0000,
    ensures
        r == nearest(p as int, q as int),
        r <= p + 1,
{
    let whole: u128 = p / q;
    let rest: u128 = p % q;
    assert(whole <= p) by (nonlinear_arith)
        requires
            whole == p / q,
            q > 0,
            p >= 0,
    ;
    if 2 * rest < q || (2 * rest == q && whole % 2 == 0) {
        whole
    } else {
        whole + 1
    }
}

/// The first of `unit`, twice `unit`, and so on under which `n` has no more
/// than 53 binary digits.
pub open spec fn last_place(n: int, unit: int) -> int
    decreases n - unit,
{
    if unit > 0 && n >= 0x20_0000_0000_0000 * unit {
        last_place(n, 2 * unit)
    } else {
        unit
    }
}

/// `n` to 53 binary digits, which is what a double holds.
pub open spec fn as_double(n: int) -> int {
    nearest(n, last_place(n, 1)) * last_place(n, 1)
}

/// `n` to 53 binary digits.
fn to_double(n: u128) -> (r: u128)
    requires
        n < 0x400_0000_0000_0000_0000_0000,
    ensures
        r == as_double(n as int),
        r <= 2 * n,
{
    let mut unit: u128 = 1;
    while n >= 0x20_0000_0000_0000 * unit
        invariant
            1 <= unit <= n || unit == 1,
            unit <= 0x40_0000_0000,
            n < 0x400_0000_0000_0000_0000_0000,
            last_place(n as int, 1) == last_place(n as int, unit as int),
        decreases n - unit,
    {
        unit = 2 * unit;
    }
    let whole: u128 = round(n, unit);
    proof {
        let rest = n as int % unit as int;
        let q = n as int / unit as int;
        assert(q * unit + rest == n) by (nonlinear_arith)
            requires
                q == n as int / unit as int,
                rest == n as int % unit as int,
                unit > 0,
        ;
        if unit == 1 {
            assert(n as int % 1 == 0);
            assert(whole == n);
        } else {
            assert((q + 1) * unit == q * unit + unit) by (nonlinear_arith);
            assert(whole == q || whole == q + 1);
            assert(whole * unit <= n + unit) by (nonlinear_arith)
                requires
                    whole == q || whole == q + 1,
                    q * unit + rest == n,
                    rest >= 0,
                    unit > 0,
            ;
        }
    }
    whole * unit
}

// ---------------------------------------------------------------------------
// Sizes
// ---------------------------------------------------------------------------

/// Which unit a size is told in: 0 is bytes, and each next one is 1024 times
/// the one before.
pub open spec fn unit_of(n: int, size: int, i: int) -> (int, int)
    decreases 6 - i,
{
    if i < 6 && n >= 1024 * size {
        unit_of(n, 1024 * size, i + 1)
    } else {
        (size, i)
    }
}

pub open spec fn unit_name(i: int) -> Seq<char> {
    if i == 0 {
        "B"@
    } else if i == 1 {
        "KiB"@
    } else if i == 2 {
        "MiB"@
    } else if i == 3 {
        "GiB"@
    } else if i == 4 {
        "TiB"@
    } else if i == 5 {
        "PiB"@
    } else {
        "EiB"@
    }
}

fn unit_text(i: usize) -> (r: &'static str)
    requires
        i <= 6,
    ensures
        r@ == unit_name(i as int),
{
    if i == 0 {
        "B"
    } else if i == 1 {
        "KiB"
    } else if i == 2 {
        "MiB"
    } else if i == 3 {
        "GiB"
    } else if i == 4 {
        "TiB"
    } else if i == 5 {
        "PiB"
    } else {
        "EiB"
    }
}

/// `n` in decimal on two digits or more.
pub open spec fn two(n: int) -> Seq<char> {
    if n < 10 {
        "0"@ + text::dec(n)
    } else {
        text::dec(n)
    }
}

/// `n` in decimal on two digits or more.
pub fn two_digits(n: u64) -> (r: String)
    ensures
        r@ == two(n as int),
{
    if n < 10 {
        text::cat2("0", text::decimal(n).as_str())
    } else {
        text::decimal(n)
    }
}

/// A byte count with three significant figures: two decimals where that gives
/// less than ten of its unit, else one where that gives less than a hundred,
/// else none.
pub open spec fn size_text(n: int) -> Seq<char> {
    if n < 1024 {
        text::dec(n) + " B"@
    } else {
        let v = as_double(n);
        let (size, i) = unit_of(v, 1, 0);
        let hundredths = nearest(100 * v, size);
        let tenths = nearest(10 * v, size);
        if hundredths < 1000 {
            text::dec(hundredths / 100) + "."@ + two(hundredths % 100) + " "@ + unit_name(i)
        } else if tenths < 1000 {
            text::dec(tenths / 10) + "."@ + text::dec(tenths % 10) + " "@ + unit_name(i)
        } else {
            text::dec(nearest(v, size)) + " "@ + unit_name(i)
        }
    }
}

proof fn unit_is_reached(v: int, size: int, i: int)
    requires
        0 < size <= v,
    ensures
        0 < unit_of(v, size, i).0 <= v,
    decreases 6 - i,
{
    if i < 6 && v >= 1024 * size {
        unit_is_reached(v, 1024 * size, i + 1);
    }
}

proof fn nearest_is_near(p: int, q: int)
    requires
        0 < q,
    ensures
        2 * p - q <= 2 * (nearest(p, q) * q) <= 2 * p + q,
{
    let whole = p / q;
    let rest = p % q;
    assert(whole * q + rest == p && 0 <= rest < q) by (nonlinear_arith)
        requires
            whole == p / q,
            rest == p % q,
            0 < q,
    ;
    assert((whole + 1) * q == whole * q + q) by (nonlinear_arith);
}

proof fn double_is_not_less(n: int, least: int)
    requires
        0 < least <= n,
        least <= 0x20_0000_0000_0000,
    ensures
        as_double(n) >= least,
{
    place_is_low(n, 1);
    let unit = last_place(n, 1);
    let whole = n / unit;
    let near = nearest(n, unit);
    if unit == 1 {
        assert(n / 1 == n && n % 1 == 0);
        assert(near * 1 == near);
    } else {
        assert(whole * unit + n % unit == n && 0 <= n % unit < unit) by (nonlinear_arith)
            requires
                whole == n / unit,
                0 < unit,
        ;
        assert(whole >= 0x10_0000_0000_0000) by (nonlinear_arith)
            requires
                whole == n / unit,
                n >= 0x10_0000_0000_0000 * unit,
                0 < unit,
        ;
        assert(whole * unit >= 0x20_0000_0000_0000) by (nonlinear_arith)
            requires
                whole >= 0x10_0000_0000_0000,
                unit >= 2,
        ;
        assert(near * unit >= whole * unit) by (nonlinear_arith)
            requires
                near >= whole,
                unit > 0,
        ;
    }
}

/// The unit of the last binary digit is no larger than it has to be.
proof fn place_is_low(n: int, unit: int)
    requires
        0 < unit,
        unit == 1 || 2 * n >= 0x20_0000_0000_0000 * unit,
    ensures
        last_place(n, unit) >= unit,
        last_place(n, unit) == 1 || 2 * n >= 0x20_0000_0000_0000 * last_place(n, unit),
    decreases n - unit,
{
    if n >= 0x20_0000_0000_0000 * unit {
        place_is_low(n, 2 * unit);
    }
}

/// Three significant figures are kept: what is told of a size of 1024 bytes or
/// more, its point aside, is a number of at least 100, and of less than 1000
/// wherever it has decimals.
pub proof fn three_figures_are_kept(n: int)
    requires
        1024 <= n,
    ensures
        ({
            let v = as_double(n);
            let size = unit_of(v, 1, 0).0;
            let hundredths = nearest(100 * v, size);
            let tenths = nearest(10 * v, size);
            &&& 100 <= hundredths
            &&& 1000 <= hundredths ==> 100 <= tenths
            &&& 1000 <= hundredths && 1000 <= tenths ==> 100 <= nearest(v, size)
        }),
{
    let v = as_double(n);
    double_is_not_less(n, 1);
    unit_is_reached(v, 1, 0);
    let size = unit_of(v, 1, 0).0;
    let hundredths = nearest(100 * v, size);
    let tenths = nearest(10 * v, size);
    let whole = nearest(v, size);
    nearest_is_near(100 * v, size);
    nearest_is_near(10 * v, size);
    nearest_is_near(v, size);
    assert(100 <= hundredths) by (nonlinear_arith)
        requires
            2 * (100 * v) - size <= 2 * (hundredths * size),
            0 < size <= v,
    ;
    if 1000 <= hundredths {
        assert(100 <= tenths) by (nonlinear_arith)
            requires
                2 * (hundredths * size) <= 2 * (100 * v) + size,
                2 * (10 * v) - size <= 2 * (tenths * size),
                1000 <= hundredths,
                0 < size,
        ;
    }
    if 1000 <= tenths {
        assert(100 <= whole) by (nonlinear_arith)
            requires
                2 * (tenths * size) <= 2 * (10 * v) + size,
                2 * v - size <= 2 * (whole * size),
                1000 <= tenths,
                0 < size,
        ;
    }
}

/// Format a byte count for people, keeping three significant figures.
pub fn human_bytes(n: u64) -> (r: String)
    ensures
        r@ == size_text(n as int),
{
    if n < 1024 {
        return text::cat2(text::decimal(n).as_str(), " B");
    }
    let v: u128 = to_double(n as u128);
    let mut size: u128 = 1;
    let mut i: usize = 0;
    while i < 6 && v >= 1024 * size
        invariant
            i <= 6,
            1 <= size <= 0x1000_0000_0000_0000,
            i == 0 ==> size == 1,
            i == 1 ==> size == 0x400,
            i == 2 ==> size == 0x10_0000,
            i == 3 ==> size == 0x4000_0000,
            i == 4 ==> size == 0x100_0000_0000,
            i == 5 ==> size == 0x4_0000_0000_0000,
            i == 6 ==> size == 0x1000_0000_0000_0000,
            v <= 0x1_FFFF_FFFF_FFFF_FFFE,
            size <= v || size == 1,
            unit_of(v as int, 1, 0) == unit_of(v as int, size as int, i as int),
        decreases 6 - i,
    {
        size = 1024 * size;
        i += 1;
    }
    let hundredths: u128 = round(100 * v, size);
    let tenths: u128 = round(10 * v, size);
    if hundredths < 1000 {
        text::cat5(
            text::decimal(hundredths as u64 / 100).as_str(),
            ".",
            two_digits(hundredths as u64 % 100).as_str(),
            " ",
            unit_text(i),
        )
    } else if tenths < 1000 {
        text::cat5(
            text::decimal(tenths as u64 / 10).as_str(),
            ".",
            text::decimal(tenths as u64 % 10).as_str(),
            " ",
            unit_text(i),
        )
    } else {
        let whole: u128 = round(v, size);
        assert(whole <= 0xFFFF) by {
            assert(i < 6 ==> v < 1024 * size);
            let q = v as int / size as int;
            assert(q <= 1024) by (nonlinear_arith)
                requires
                    q == v as int / size as int,
                    v < 1024 * size || (size == 0x1000_0000_0000_0000 && v
                        <= 0x1_FFFF_FFFF_FFFF_FFFE),
                    size > 0,
            ;
        }
        text::cat3(text::decimal(whole as u64).as_str(), " ", unit_text(i))
    }
}

// ---------------------------------------------------------------------------
// Durations
// ---------------------------------------------------------------------------

/// A span of time.
#[derive(Clone, Copy, Debug, PartialEq, Eq, Structural)]
pub struct Elapsed {
    pub secs: u64,
    /// Less than a second.
    pub nanos: u32,
}

/// The first of `scale`, twice `scale`, and so on at which `p` times it reaches
/// `floor`.
pub open spec fn scale_up(p: int, floor: int, scale: int) -> int
    decreases 2 * floor - scale,
{
    if p > 0 && scale > 0 && p * scale < floor {
        proof {
            assert(scale <= p * scale) by (nonlinear_arith)
                requires
                    p > 0,
                    scale > 0,
            ;
        }
        scale_up(p, floor, 2 * scale)
    } else {
        scale
    }
}

/// `secs` seconds and `nanos` billionths in tenths of a second, as doubles
/// give it: the quotient to 53 binary digits, the sum again, and then to the
/// nearest tenth.
pub open spec fn tenths(secs: int, nanos: int) -> int {
    let scale = scale_up(nanos, 4_503_599_627_370_496_000_000_000int, 1);
    let part = nearest(nanos * scale, 1_000_000_000);
    nearest(10 * as_double(secs * scale + part), scale)
}

/// A duration in words.
pub open spec fn duration_text(secs: int, nanos: int) -> Seq<char> {
    if secs < 60 {
        let t = tenths(secs, nanos);
        text::dec(t / 10) + "."@ + text::dec(t % 10) + "s"@
    } else if secs < 3600 {
        text::dec(secs / 60) + "m "@ + text::dec(secs % 60) + "s"@
    } else {
        text::dec(secs / 3600) + "h "@ + text::dec((secs % 3600) / 60) + "m"@
    }
}

/// Format a duration for people.
pub fn human_duration(d: Elapsed) -> (r: String)
    requires
        d.nanos < 1_000_000_000,
    ensures
        r@ == duration_text(d.secs as int, d.nanos as int),
{
    let s: u64 = d.secs;
    if s < 60 {
        let t: u64 = in_tenths(s, d.nanos);
        text::cat4(
            text::decimal(t / 10).as_str(),
            ".",
            text::decimal(t % 10).as_str(),
            "s",
        )
    } else if s < 3600 {
        text::cat4(text::decimal(s / 60).as_str(), "m ", text::decimal(s % 60).as_str(), "s")
    } else {
        text::cat4(
            text::decimal(s / 3600).as_str(),
            "h ",
            text::decimal((s % 3600) / 60).as_str(),
            "m",
        )
    }
}

fn in_tenths(secs: u64, nanos: u32) -> (r: u64)
    requires
        secs < 60,
        nanos < 1_000_000_000,
    ensures
        r == tenths(secs as int, nanos as int),
{
    let floor: u128 = 4_503_599_627_370_496_000_000_000;
    let p: u128 = nanos as u128;
    let mut scale: u128 = 1;
    let mut scaled: u128 = p;
    while p > 0 && scaled < floor
        invariant
            floor == 4_503_599_627_370_496_000_000_000,
            scale >= 1,
            p < 1_000_000_000,
            scaled == p * scale,
            scaled <= 2 * floor,
            p > 0 ==> scale <= scaled,
            p == 0 ==> scale == 1,
            scale_up(p as int, floor as int, 1) == scale_up(p as int, floor as int, scale as int),
        decreases 2 * floor - scale,
    {
        assert(p * (2 * scale) == 2 * (p * scale)) by (nonlinear_arith);
        assert(2 * scale <= p * (2 * scale)) by (nonlinear_arith)
            requires
                p > 0,
                scale > 0,
        ;
        scale = 2 * scale;
        scaled = 2 * scaled;
    }
    let part: u128 = round(scaled, 1_000_000_000);
    proof {
        // Less than a second, or just one.
        assert(scaled < 1_000_000_000 * scale) by (nonlinear_arith)
            requires
                scaled == p * scale,
                p < 1_000_000_000,
                scale >= 1,
        ;
        assert(part <= scale + 1);
        assert(secs * scale <= 59 * scale) by (nonlinear_arith)
            requires
                secs <= 59,
                scale >= 0,
        ;
        assert(scale <= 2 * floor);
        assert(secs as u128 * scale <= 59 * scale);
    }
    let sum: u128 = secs as u128 * scale + part;
    let v: u128 = to_double(sum);
    let t: u128 = round(10 * v, scale);
    proof {
        let q = (10 * v) / scale as int;
        assert(q <= 1240) by (nonlinear_arith)
            requires
                q == (10 * v) / scale as int,
                10 * v <= 1240 * scale,
                scale > 0,
        ;
    }
    t as u64
}

/// The log level of a number of `-v` flags.
pub open spec fn level_name(verbosity: int) -> Seq<char> {
    if verbosity == 0 {
        "warn"@
    } else if verbosity == 1 {
        "info"@
    } else if verbosity == 2 {
        "debug"@
    } else {
        "trace"@
    }
}

/// The log filter of a number of `-v` flags.
pub fn log_filter(verbosity: u8) -> (r: String)
    ensures
        r@ == "rc_="@ + level_name(verbosity as int) + ","@ + level_name(verbosity as int),
{
    let level: &str = if verbosity == 0 {
        "warn"
    } else if verbosity == 1 {
        "info"
    } else if verbosity == 2 {
        "debug"
    } else {
        "trace"
    };
    text::cat4("rc_=", level, ",", level)
}

// ---------------------------------------------------------------------------
// Tables
// ---------------------------------------------------------------------------

/// `s` with spaces after it, up to `w` characters.
pub open spec fn padded(s: Seq<char>, w: int) -> Seq<char> {
    if s.len() >= w {
        s
    } else {
        s + text::repeated(' ', (w - s.len()) as nat)
    }
}

/// `s` with spaces before it, up to `w` characters.
pub open spec fn indented(s: Seq<char>, w: int) -> Seq<char> {
    if s.len() >= w {
        s
    } else {
        text::repeated(' ', (w - s.len()) as nat) + s
    }
}

/// `c` repeated `n` times.
pub fn repeat(c: char, n: usize) -> (r: String)
    ensures
        r@ == text::repeated(c, n as nat),
{
    let mut s = String::new();
    let mut i: usize = 0;
    while i < n
        invariant
            i <= n,
            s@ =~= text::repeated(c, i as nat),
        decreases n - i,
    {
        s.push(c);
        i += 1;
    }
    s
}

/// `s` with spaces after it, up to `w` characters.
pub fn pad(s: &str, w: usize) -> (r: String)
    ensures
        r@ == padded(s@, w as int),
{
    let len: usize = s.unicode_len();
    if len >= w {
        s.to_owned()
    } else {
        text::cat2(s, repeat(' ', w - len).as_str())
    }
}

/// `s` with spaces before it, up to `w` characters.
pub fn indent(s: &str, w: usize) -> (r: String)
    ensures
        r@ == indented(s@, w as int),
{
    let len: usize = s.unicode_len();
    if len >= w {
        s.to_owned()
    } else {
        text::cat2(repeat(' ', w - len).as_str(), s)
    }
}

/// A minimal left-aligned table.
pub struct Table {
    headers: Vec<String>,
    rows: Vec<Vec<String>>,
}

/// The cells of each of a list of rows.
pub open spec fn cells(rows: Seq<Vec<String>>) -> Seq<Seq<Seq<char>>> {
    Seq::new(rows.len(), |i: int| text::texts(rows[i]@))
}

/// How wide column `i` must be for its header and its cells in the first `n`
/// rows.
pub open spec fn width(heads: Seq<Seq<char>>, rows: Seq<Seq<Seq<char>>>, i: int, n: int) -> int
    decreases n,
{
    if n <= 0 {
        heads[i].len() as int
    } else {
        let before = width(heads, rows, i, n - 1);
        if rows[n - 1][i].len() > before {
            rows[n - 1][i].len() as int
        } else {
            before
        }
    }
}

/// The widths of the columns.
pub open spec fn widths(heads: Seq<Seq<char>>, rows: Seq<Seq<Seq<char>>>) -> Seq<int> {
    Seq::new(heads.len(), |i: int| width(heads, rows, i, rows.len() as int))
}

/// The cells of one row, each on its column's width.
pub open spec fn spread(row: Seq<Seq<char>>, widths: Seq<int>) -> Seq<Seq<char>> {
    Seq::new(row.len(), |i: int| padded(row[i], widths[i]))
}

/// A row as it is printed.
pub open spec fn row_text(row: Seq<Seq<char>>, widths: Seq<int>) -> Seq<char> {
    text::end_trimmed(text::joined(spread(row, widths), "  "@))
}

/// The line under the headers.
pub open spec fn rule_text(widths: Seq<int>) -> Seq<char> {
    text::joined(
        Seq::new(widths.len(), |i: int| text::repeated('-', widths[i] as nat)),
        "  "@,
    )
}

/// The lines of a table.
pub open spec fn table_lines(heads: Seq<Seq<char>>, rows: Seq<Seq<Seq<char>>>) -> Seq<Seq<char>> {
    let w = widths(heads, rows);
    seq![row_text(heads, w), rule_text(w)] + Seq::new(rows.len(), |i: int| row_text(rows[i], w))
}

impl Table {
    pub closed spec fn heads(self) -> Seq<Seq<char>> {
        text::texts(self.headers@)
    }

    pub closed spec fn body(self) -> Seq<Seq<Seq<char>>> {
        cells(self.rows@)
    }

    /// Whether every row has a cell for every header.
    pub open spec fn wf(self) -> bool {
        forall|i: int|
            0 <= i < self.body().len() ==> (#[trigger] self.body()[i]).len() == self.heads().len()
    }

    pub fn new(headers: &[&str]) -> (t: Self)
        ensures
            t.wf(),
            t.heads() == Seq::new(headers@.len(), |i: int| headers@[i]@),
            t.body() == Seq::<Seq<Seq<char>>>::empty(),
    {
        let mut v: Vec<String> = Vec::new();
        let mut i: usize = 0;
        while i < headers.len()
            invariant
                i <= headers@.len(),
                v@.len() == i,
                forall|j: int| 0 <= j < i ==> (#[trigger] v@[j])@ == headers@[j]@,
            decreases headers@.len() - i,
        {
            v.push(headers[i].to_owned());
            i += 1;
        }
        let t = Table { headers: v, rows: Vec::new() };
        assert(t.heads() =~= Seq::new(headers@.len(), |i: int| headers@[i]@));
        assert(t.body() =~= Seq::<Seq<Seq<char>>>::empty());
        t
    }

    /// Append a row, which has a cell for every header.
    pub fn row(&mut self, row: Vec<String>)
        requires
            old(self).wf(),
            row@.len() == old(self).heads().len(),
        ensures
            final(self).wf(),
            final(self).heads() == old(self).heads(),
            final(self).body() == old(self).body().push(text::texts(row@)),
    {
        let ghost before = self.body();
        let ghost new = text::texts(row@);
        self.rows.push(row);
        assert(self.body() =~= before.push(new));
    }

    pub fn is_empty(&self) -> (r: bool)
        ensures
            r == (self.body().len() == 0),
    {
        self.rows.len() == 0
    }

    /// The table, a line at a time: headers, a rule, and the rows.
    pub fn lines(&self) -> (r: Vec<String>)
        requires
            self.wf(),
        ensures
            text::texts(r@) == table_lines(self.heads(), self.body()),
    {
        let w: Vec<usize> = self.column_widths();
        let ghost ws = widths(self.heads(), self.body());
        let mut out: Vec<String> = Vec::new();
        out.push(one_row(&self.headers, &w));
        let mut dashes: Vec<String> = Vec::new();
        let mut i: usize = 0;
        while i < w.len()
            invariant
                i <= w@.len(),
                dashes@.len() == i,
                forall|j: int|
                    0 <= j < i ==> (#[trigger] dashes@[j])@ == text::repeated('-', w@[j] as nat),
            decreases w@.len() - i,
        {
            dashes.push(repeat('-', w[i]));
            i += 1;
        }
        assert(text::texts(dashes@) =~= Seq::new(
            ws.len(),
            |i: int| text::repeated('-', ws[i] as nat),
        ));
        out.push(text::join(&dashes, "  "));
        let mut k: usize = 0;
        while k < self.rows.len()
            invariant
                k <= self.rows@.len(),
                self.wf(),
                self.body() == cells(self.rows@),
                self.heads().len() == self.headers@.len() == w@.len(),
                ws == widths(self.heads(), self.body()),
                ws == as_ints(w@),
                out@.len() == k + 2,
                out@[0]@ == row_text(self.heads(), ws),
                out@[1]@ == rule_text(ws),
                forall|j: int|
                    0 <= j < k ==> (#[trigger] out@[j + 2])@ == row_text(self.body()[j], ws),
            decreases self.rows@.len() - k,
        {
            assert(self.body()[k as int] == text::texts(self.rows@[k as int]@));
            let line = one_row(&self.rows[k], &w);
            let ghost had = out@;
            out.push(line);
            assert forall|j: int| 0 <= j < k + 1 implies (#[trigger] out@[j + 2])@ == row_text(
                self.body()[j],
                ws,
            ) by {
                if j < k {
                    assert(out@[j + 2] == had[j + 2]);
                }
            }
            k += 1;
        }
        proof {
            let want = table_lines(self.heads(), self.body());
            assert forall|j: int| 0 <= j < out@.len() implies text::texts(out@)[j] == want[j] by {
                if j >= 2 {
                    assert(out@[(j - 2) + 2] == out@[j]);
                }
            }
            assert(text::texts(out@) =~= want);
        }
        out
    }

    fn column_widths(&self) -> (w: Vec<usize>)
        requires
            self.wf(),
        ensures
            w@.len() == self.headers@.len(),
            as_ints(w@) == widths(self.heads(), self.body()),
    {
        let mut w: Vec<usize> = Vec::new();
        let mut i: usize = 0;
        while i < self.headers.len()
            invariant
                i <= self.headers@.len(),
                self.wf(),
                self.heads() == text::texts(self.headers@),
                self.body() == cells(self.rows@),
                w@.len() == i,
                forall|j: int|
                    0 <= j < i ==> #[trigger] w@[j] == width(
                        self.heads(),
                        self.body(),
                        j,
                        self.rows@.len() as int,
                    ),
            decreases self.headers@.len() - i,
        {
            let mut widest: usize = self.headers[i].as_str().unicode_len();
            assert(self.heads()[i as int] == self.headers@[i as int]@);
            let mut k: usize = 0;
            while k < self.rows.len()
                invariant
                    k <= self.rows@.len(),
                    i < self.headers@.len(),
                    self.wf(),
                    self.heads() == text::texts(self.headers@),
                    self.body() == cells(self.rows@),
                    widest == width(self.heads(), self.body(), i as int, k as int),
                decreases self.rows@.len() - k,
            {
                assert(self.body()[k as int] == text::texts(self.rows@[k as int]@));
                let n: usize = self.rows[k][i].as_str().unicode_len();
                assert(self.body()[k as int][i as int] == self.rows@[k as int]@[i as int]@);
                if n > widest {
                    widest = n;
                }
                k += 1;
            }
            w.push(widest);
            i += 1;
        }
        assert(as_ints(w@) =~= widths(self.heads(), self.body()));
        w
    }
}

spec fn as_ints(w: Seq<usize>) -> Seq<int> {
    Seq::new(w.len(), |i: int| w[i] as int)
}

fn one_row(row: &Vec<String>, w: &Vec<usize>) -> (r: String)
    requires
        row@.len() == w@.len(),
    ensures
        r@ == row_text(text::texts(row@), as_ints(w@)),
{
    let mut padded_cells: Vec<String> = Vec::new();
    let mut i: usize = 0;
    while i < row.len()
        invariant
            i <= row@.len() == w@.len(),
            padded_cells@.len() == i,
            forall|j: int|
                0 <= j < i ==> (#[trigger] padded_cells@[j])@ == padded(row@[j]@, w@[j] as int),
        decreases row@.len() - i,
    {
        padded_cells.push(pad(row[i].as_str(), w[i]));
        i += 1;
    }
    let all = text::join(&padded_cells, "  ");
    proof {
        assert(text::texts(padded_cells@) =~= spread(text::texts(row@), as_ints(w@)));
    }
    text::trim_end(all.as_str()).to_owned()
}

proof fn joined_length(parts: Seq<Seq<char>>, sep: Seq<char>, others: Seq<Seq<char>>)
    requires
        parts.len() == others.len(),
        forall|i: int| 0 <= i < parts.len() ==> (#[trigger] parts[i]).len() == others[i].len(),
    ensures
        text::joined(parts, sep).len() == text::joined(others, sep).len(),
    decreases parts.len(),
{
    if parts.len() > 1 {
        let a = parts.drop_last();
        let b = others.drop_last();
        assert forall|i: int| 0 <= i < a.len() implies (#[trigger] a[i]).len() == b[i].len() by {
            assert(a[i] == parts[i]);
        }
        joined_length(a, sep, b);
        assert(parts.last().len() == others.last().len());
    } else if parts.len() == 1 {
        assert(parts[0].len() == others[0].len());
    }
}

proof fn cells_fit(heads: Seq<Seq<char>>, rows: Seq<Seq<Seq<char>>>, i: int, n: int, k: int)
    requires
        0 <= k < n <= rows.len(),
    ensures
        rows[k][i].len() <= width(heads, rows, i, n),
        heads[i].len() <= width(heads, rows, i, n),
    decreases n,
{
    if k < n - 1 {
        cells_fit(heads, rows, i, n - 1, k);
    } else {
        heads_fit(heads, rows, i, n);
    }
}

proof fn heads_fit(heads: Seq<Seq<char>>, rows: Seq<Seq<Seq<char>>>, i: int, n: int)
    requires
        0 <= n,
    ensures
        heads[i].len() <= width(heads, rows, i, n),
    decreases n,
{
    if n > 0 {
        heads_fit(heads, rows, i, n - 1);
    }
}

/// A table's columns line up: before the white space at a line's end is taken
/// off, every row is exactly as long as the rule under the headers, and so are
/// the headers.
pub proof fn columns_line_up(heads: Seq<Seq<char>>, rows: Seq<Seq<Seq<char>>>, k: int)
    requires
        0 <= k < rows.len(),
        rows[k].len() == heads.len(),
    ensures
        ({
            let w = widths(heads, rows);
            &&& text::joined(spread(rows[k], w), "  "@).len() == rule_text(w).len()
            &&& text::joined(spread(heads, w), "  "@).len() == rule_text(w).len()
        }),
{
    let w = widths(heads, rows);
    let n = rows.len() as int;
    let dashes = Seq::new(w.len(), |i: int| text::repeated('-', w[i] as nat));
    assert forall|i: int| 0 <= i < heads.len() implies (#[trigger] spread(rows[k], w)[i]).len()
        == dashes[i].len() by {
        cells_fit(heads, rows, i, n, k);
    }
    joined_length(spread(rows[k], w), "  "@, dashes);
    assert forall|i: int| 0 <= i < heads.len() implies (#[trigger] spread(heads, w)[i]).len()
        == dashes[i].len() by {
        heads_fit(heads, rows, i, n);
    }
    joined_length(spread(heads, w), "  "@, dashes);
}

} // verus!
