//! Cloning a device: the size that a user writes, and what is said of the
//! result.

use vstd::prelude::*;
use vstd::string::*;
use crate::output;
use crate::output::human_bytes;
use crate::text;

verus! {

/// What a text says as a number of 64 bits.
#[derive(Clone, Copy, Debug, PartialEq, Eq, Structural)]
pub enum Parsed {
    Number(u64),
    /// There is no text.
    Empty,
    /// A character that is no digit.
    NoDigit,
    /// More than 64 bits hold.
    TooLarge,
}

/// The number that the characters from `i` on make, after a number `so_far`:
/// the first character that is no digit, or that makes it too large, decides.
pub open spec fn digits_from(s: Seq<char>, i: int, so_far: int) -> Parsed
    decreases s.len() - i,
{
    if i < 0 || i >= s.len() {
        Parsed::Number(so_far as u64)
    } else if !('0' <= s[i] <= '9') {
        Parsed::NoDigit
    } else {
        let next = 10 * so_far + (s[i] as int - '0' as int);
        if next > u64::MAX {
            Parsed::TooLarge
        } else {
            digits_from(s, i + 1, next)
        }
    }
}

/// A number in decimal, with an optional plus sign.
pub open spec fn number_of(s: Seq<char>) -> Parsed {
    if s.len() == 0 {
        Parsed::Empty
    } else if s[0] == '+' {
        if s.len() == 1 {
            Parsed::NoDigit
        } else {
            digits_from(s, 1, 0)
        }
    } else {
        digits_from(s, 0, 0)
    }
}

/// A number in decimal, with an optional plus sign.
pub fn parse_number(s: &str) -> (r: Parsed)
    ensures
        r == number_of(s@),
{
    let c: Vec<char> = text::letters(s);
    if c.len() == 0 {
        return Parsed::Empty;
    }
    let mut i: usize = 0;
    if c[0] == '+' {
        if c.len() == 1 {
            return Parsed::NoDigit;
        }
        i = 1;
    }
    let mut n: u64 = 0;
    while i < c.len()
        invariant
            c@ == s@,
            i <= c@.len(),
            number_of(s@) == digits_from(s@, i as int, n as int),
        decreases c@.len() - i,
    {
        let d: char = c[i];
        if !('0' <= d && d <= '9') {
            return Parsed::NoDigit;
        }
        let next: u128 = 10 * n as u128 + (d as u32 - '0' as u32) as u128;
        if next > 0xFFFF_FFFF_FFFF_FFFF {
            return Parsed::TooLarge;
        }
        n = next as u64;
        i += 1;
    }
    Parsed::Number(n)
}

/// Whether `s` ends in `end`.
pub open spec fn ends_in(s: Seq<char>, end: Seq<char>) -> bool {
    s.len() >= end.len() && s.subrange(s.len() - end.len(), s.len() as int) == end
}

/// `s` without its last `n` characters.
pub open spec fn shortened(s: Seq<char>, n: int) -> Seq<char> {
    s.subrange(0, s.len() - n)
}

/// A size's number, as text, and its unit in bytes.
pub open spec fn size_parts(s: Seq<char>) -> (Seq<char>, int) {
    let t = text::trimmed(s);
    if ends_in(t, "GiB"@) {
        (shortened(t, 3), 0x4000_0000)
    } else if ends_in(t, "MiB"@) {
        (shortened(t, 3), 0x10_0000)
    } else if ends_in(t, "KiB"@) {
        (shortened(t, 3), 0x400)
    } else {
        (t, 1)
    }
}

/// A size as written: the number before the unit, and the unit in bytes.
pub open spec fn size_read(s: Seq<char>) -> (Parsed, int) {
    let (num, unit) = size_parts(s);
    (number_of(text::trimmed(num)), unit)
}

/// What is said of a text that is no size.
pub open spec fn not_a_size(s: Seq<char>, p: Parsed) -> Seq<char> {
    "invalid size "@ + text::quoted(s) + ": "@ + match p {
        Parsed::Empty => "cannot parse integer from empty string"@,
        Parsed::NoDigit => "invalid digit found in string"@,
        _ => "number too large to fit in target type"@,
    }
}

fn has_suffix(s: &str, end: &str) -> (r: bool)
    requires
        end@.len() == 3,
    ensures
        r == ends_in(s@, end@),
{
    let n: usize = s.unicode_len();
    if n < 3 {
        return false;
    }
    text::same_text(s.substring_char(n - 3, n), end)
}

fn split_size(s: &str) -> (r: (&str, u64))
    ensures
        (r.0@, r.1 as int) == size_parts(s@),
        r.1 <= 0x4000_0000,
{
    proof {
        reveal_strlit("GiB");
        reveal_strlit("MiB");
        reveal_strlit("KiB");
    }
    let t: &str = text::trim(s);
    let n: usize = t.unicode_len();
    if has_suffix(t, "GiB") {
        (t.substring_char(0, n - 3), 0x4000_0000)
    } else if has_suffix(t, "MiB") {
        (t.substring_char(0, n - 3), 0x10_0000)
    } else if has_suffix(t, "KiB") {
        (t.substring_char(0, n - 3), 0x400)
    } else {
        (t, 1)
    }
}

/// A size as written: a number, and the unit it counts in bytes.
pub fn read_size(s: &str) -> (r: Result<(u64, u64), String>)
    ensures
        ({
            let (p, unit) = size_read(s@);
            match r {
                Ok(v) => p == Parsed::Number(v.0) && v.1 == unit,
                Err(m) => !(p is Number) && m@ == not_a_size(s@, p),
            }
        }),
        r matches Ok(v) ==> v.1 <= 0x4000_0000,
{
    let (num, unit): (&str, u64) = split_size(s);
    match parse_number(text::trim(num)) {
        Parsed::Number(n) => Ok((n, unit)),
        Parsed::Empty => Err(
            text::cat4(
                "invalid size ",
                text::quote(s).as_str(),
                ": ",
                "cannot parse integer from empty string",
            ),
        ),
        Parsed::NoDigit => Err(
            text::cat4(
                "invalid size ",
                text::quote(s).as_str(),
                ": ",
                "invalid digit found in string",
            ),
        ),
        Parsed::TooLarge => Err(
            text::cat4(
                "invalid size ",
                text::quote(s).as_str(),
                ": ",
                "number too large to fit in target type",
            ),
        ),
    }
}

/// A size in bytes, such as `1MiB`. What 64 bits cannot hold in bytes is left
/// to the caller.
pub fn parse_size(s: &str) -> (r: Result<u64, String>)
    requires
        size_read(s@).0 matches Parsed::Number(n) ==> n * size_read(s@).1 <= u64::MAX,
    ensures
        ({
            let (p, unit) = size_read(s@);
            match r {
                Ok(v) => p is Number && v == p->Number_0 * unit,
                Err(m) => !(p is Number) && m@ == not_a_size(s@, p),
            }
        }),
{
    match read_size(s) {
        Ok((n, unit)) => Ok(n * unit),
        Err(m) => Err(m),
    }
}

/// What a progress bar says.
pub fn progress(pass: u64, bad: u64) -> (r: String)
    ensures
        r@ == (if bad > 0 {
            "pass "@ + text::dec(pass as int) + " - "@ + output::size_text(bad as int)
                + " unreadable"@
        } else {
            "pass "@ + text::dec(pass as int)
        }),
{
    if bad > 0 {
        text::cat5(
            "pass ",
            text::decimal(pass).as_str(),
            " - ",
            human_bytes(bad).as_str(),
            " unreadable",
        )
    } else {
        text::cat2("pass ", text::decimal(pass).as_str())
    }
}

/// What is said of a clone once it is done.
pub open spec fn outcome_text(
    complete: bool,
    bad_bytes: int,
    read_errors: int,
    fill: int,
    bad_mark: Seq<char>,
    map: Seq<char>,
) -> Seq<Seq<char>> {
    if complete {
        seq![""@, "Clone is complete: every byte of the source was read."@]
    } else {
        seq![
            ""@,
            "Clone is INCOMPLETE: "@ + output::size_text(bad_bytes) + " could not be read ("@
                + text::dec(read_errors) + " read errors)."@,
            "Unreadable regions were filled with 0x"@ + text::hex(fill, 2)
                + ". The image hash therefore does not match the physical device."@,
            "Unreadable ranges are the '"@ + bad_mark + "' entries in "@ + map,
        ]
    }
}

/// What is said of a clone once it is done, as lines of text.
pub fn outcome_lines(
    complete: bool,
    bad_bytes: u64,
    read_errors: u64,
    fill: u8,
    bad_mark: &str,
    map: &str,
) -> (r: Vec<String>)
    ensures
        text::texts(r@) == outcome_text(
            complete,
            bad_bytes as int,
            read_errors as int,
            fill as int,
            bad_mark@,
            map@,
        ),
{
    let mut out: Vec<String> = Vec::new();
    text::say(&mut out, "".to_owned());
    if complete {
        text::say(&mut out, "Clone is complete: every byte of the source was read.".to_owned());
    } else {
        text::say(
            &mut out,
            text::cat5(
                "Clone is INCOMPLETE: ",
                human_bytes(bad_bytes).as_str(),
                " could not be read (",
                text::decimal(read_errors).as_str(),
                " read errors).",
            ),
        );
        text::say(
            &mut out,
            text::cat3(
                "Unreadable regions were filled with 0x",
                text::hexadecimal(fill as u64, 2).as_str(),
                ". The image hash therefore does not match the physical device.",
            ),
        );
        text::say(
            &mut out,
            text::cat4("Unreadable ranges are the '", bad_mark, "' entries in ", map),
        );
    }
    assert(text::texts(out@) =~= outcome_text(
        complete,
        bad_bytes as int,
        read_errors as int,
        fill as int,
        bad_mark@,
        map@,
    ));
    out
}

} // verus!
