//! Looking at recovered bytes without writing them anywhere.

use vstd::prelude::*;
use vstd::string::*;
use crate::bytes;
use crate::output;
use crate::text;

verus! {

broadcast use bytes::slice_fits;

/// How much input a preview may read.
pub const PREVIEW_LIMIT: u64 = 0x2000_0000;

/// Whether a preview of this length is allowed.
pub fn check_length(length: u64) -> (r: Result<(), String>)
    ensures
        match r {
            Ok(_) => length <= 0x2000_0000,
            Err(m) => length > 0x2000_0000 && m@ == "previews are limited to 512 MiB of input"@,
        },
{
    if length <= PREVIEW_LIMIT {
        Ok(())
    } else {
        Err("previews are limited to 512 MiB of input".to_owned())
    }
}

/// The width and height that a PNG's first chunk states.
pub fn png_size(png: &[u8]) -> (r: (u32, u32))
    requires
        png@.len() >= 24,
    ensures
        r.0 == bytes::u32_be(png@, 16),
        r.1 == bytes::u32_be(png@, 20),
{
    (bytes::get32(png, 16, true), bytes::get32(png, 20, true))
}

/// A range to mark.
#[derive(Clone, Debug)]
pub struct Mark {
    pub start: u64,
    pub end: u64,
    pub kind: String,
    pub label: String,
}

/// The mark on a header of `n` bytes at `offset`.
pub fn header_mark(offset: u64, n: u64) -> (r: Mark)
    requires
        offset + n <= u64::MAX,
    ensures
        r.start == offset,
        r.end == offset + n,
        r.kind@ == "Header"@,
        r.label@ == "header"@,
{
    Mark {
        start: offset,
        end: offset + n,
        kind: "Header".to_owned(),
        label: "header".to_owned(),
    }
}

/// Whether one of the marks covers a position.
pub open spec fn marked(marks: Seq<Mark>, at: int) -> bool {
    exists|i: int| 0 <= i < marks.len() && (#[trigger] marks[i]).start <= at < marks[i].end
}

/// A byte in hexadecimal: in brackets where it is marked.
pub open spec fn cell(b: u8, is_marked: bool) -> Seq<char> {
    let two = text::zero_padded(text::low_hex(b as int), 2);
    if is_marked {
        "["@ + two + "]"@
    } else {
        " "@ + two + " "@
    }
}

/// The cells of the first `n` bytes of a row that begins at `at`.
pub open spec fn cells_upto(row: Seq<u8>, marks: Seq<Mark>, at: int, n: int) -> Seq<char>
    decreases n,
{
    if n <= 0 {
        Seq::empty()
    } else {
        cells_upto(row, marks, at, n - 1) + cell(row[n - 1], marked(marks, at + n - 1))
    }
}

/// A byte as a character, or a dot where it is none that can be printed.
pub open spec fn printable(b: u8) -> char {
    if 0x20 <= b < 0x7F {
        b as char
    } else {
        '.'
    }
}

/// The bytes of a row as characters.
pub open spec fn glyphs(row: Seq<u8>) -> Seq<char> {
    Seq::new(row.len(), |i: int| printable(row[i]))
}

/// A row of sixteen bytes or fewer: its offset, its bytes, its characters.
pub open spec fn row_text(row: Seq<u8>, marks: Seq<Mark>, at: int) -> Seq<char> {
    output::indented(text::low_hex(at), 12) + "  "@ + cells_upto(row, marks, at, row.len() as int)
        + "  "@ + glyphs(row)
}

/// How many rows of sixteen bytes there are.
pub open spec fn row_count(n: int) -> int {
    (n + 15) / 16
}

/// The `i`-th row's bytes.
pub open spec fn row_of(data: Seq<u8>, i: int) -> Seq<u8> {
    data.subrange(
        16 * i,
        if 16 * i + 16 <= data.len() {
            16 * i + 16
        } else {
            data.len() as int
        },
    )
}

/// What is said of a mark.
pub open spec fn mark_text(m: Mark) -> Seq<char> {
    "  "@ + m.kind@ + " "@ + text::dec(m.start as int) + ".."@ + text::dec(m.end as int) + ": "@
        + m.label@
}

/// Bytes as annotated hexadecimal, a line for every sixteen, and then the
/// marks.
pub open spec fn hex_text(offset: int, data: Seq<u8>, marks: Seq<Mark>) -> Seq<Seq<char>> {
    Seq::new(
        row_count(data.len() as int) as nat,
        |i: int| row_text(row_of(data, i), marks, offset + 16 * i),
    ) + Seq::new(marks.len(), |i: int| mark_text(marks[i]))
}

fn is_marked(marks: &Vec<Mark>, at: u64) -> (r: bool)
    ensures
        r == marked(marks@, at as int),
{
    let mut i: usize = 0;
    while i < marks.len()
        invariant
            i <= marks@.len(),
            forall|k: int|
                0 <= k < i ==> !((#[trigger] marks@[k]).start <= at < marks@[k].end),
        decreases marks@.len() - i,
    {
        if marks[i].start <= at && at < marks[i].end {
            assert(marks@[i as int].start <= at < marks@[i as int].end);
            return true;
        }
        i += 1;
    }
    false
}

fn hex_row(row: &[u8], marks: &Vec<Mark>, at: u64) -> (r: String)
    requires
        at + row@.len() <= u64::MAX,
    ensures
        r@ == row_text(row@, marks@, at as int),
{
    let mut hex = String::new();
    let mut ascii = String::new();
    let mut j: usize = 0;
    while j < row.len()
        invariant
            j <= row@.len(),
            at + row@.len() <= u64::MAX,
            hex@ =~= cells_upto(row@, marks@, at as int, j as int),
            ascii@ =~= glyphs(row@).subrange(0, j as int),
        decreases row@.len() - j,
    {
        let b: u8 = row[j];
        let two: String = text::zeros_before(text::low_hexadecimal(b as u64).as_str(), 2);
        if is_marked(marks, at + j as u64) {
            hex.append(text::cat3("[", two.as_str(), "]").as_str());
        } else {
            hex.append(text::cat3(" ", two.as_str(), " ").as_str());
        }
        if 0x20 <= b && b < 0x7F {
            ascii.push(b as char);
        } else {
            ascii.push('.');
        }
        j += 1;
    }
    assert(glyphs(row@).subrange(0, j as int) =~= glyphs(row@));
    text::cat5(
        output::indent(text::low_hexadecimal(at).as_str(), 12).as_str(),
        "  ",
        hex.as_str(),
        "  ",
        ascii.as_str(),
    )
}

/// Bytes as annotated hexadecimal, as lines of text.
pub fn hex_lines(offset: u64, data: &[u8], marks: &Vec<Mark>) -> (r: Vec<String>)
    requires
        offset + data@.len() <= u64::MAX,
    ensures
        text::texts(r@) == hex_text(offset as int, data@, marks@),
{
    let mut out: Vec<String> = Vec::new();
    let ghost rows = Seq::new(
        row_count(data@.len() as int) as nat,
        |i: int| row_text(row_of(data@, i), marks@, offset + 16 * i),
    );
    let ghost mut n: int = 0;
    let mut pos: usize = 0;
    while pos < data.len()
        invariant
            offset + data@.len() <= u64::MAX,
            pos <= data@.len(),
            0 <= n,
            pos == data@.len() || pos == 16 * n,
            pos == data@.len() ==> n == row_count(data@.len() as int),
            n <= rows.len(),
            rows == Seq::new(
                row_count(data@.len() as int) as nat,
                |i: int| row_text(row_of(data@, i), marks@, offset + 16 * i),
            ),
            text::texts(out@) =~= rows.subrange(0, n),
        decreases data@.len() - pos,
    {
        let end: usize = if data.len() - pos > 16 {
            pos + 16
        } else {
            data.len()
        };
        let row: &[u8] = vstd::slice::slice_subrange(data, pos, end);
        assert(row@ =~= row_of(data@, n));
        text::say(&mut out, hex_row(row, marks, offset + pos as u64));
        proof {
            assert(n < row_count(data@.len() as int));
            n = n + 1;
        }
        pos = end;
    }
    assert(rows.subrange(0, n) =~= rows);
    let mut i: usize = 0;
    let ghost said = Seq::new(marks@.len(), |i: int| mark_text(marks@[i]));
    while i < marks.len()
        invariant
            i <= marks@.len(),
            said == Seq::new(marks@.len(), |i: int| mark_text(marks@[i])),
            text::texts(out@) =~= rows + said.subrange(0, i as int),
        decreases marks@.len() - i,
    {
        let m = &marks[i];
        let start: String = text::cat4("  ", m.kind.as_str(), " ", text::decimal(m.start).as_str());
        text::say(
            &mut out,
            text::cat5(
                start.as_str(),
                "..",
                text::decimal(m.end).as_str(),
                ": ",
                m.label.as_str(),
            ),
        );
        i += 1;
    }
    assert(said.subrange(0, i as int) =~= said);
    out
}

} // verus!
