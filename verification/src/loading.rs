//! What a table of signatures loads as.

use vstd::prelude::*;
use crate::signature;
use crate::signature::{Format, Row};
use crate::text;

verus! {

/// Whether `c` is the hexadecimal digit of value `v`, in either case.
pub open spec fn is_digit(c: char, v: int) -> bool {
    ||| 0 <= v <= 9 && c as int == 48 + v
    ||| 10 <= v <= 15 && c as int == 65 + (v - 10)
    ||| 10 <= v <= 15 && c as int == 97 + (v - 10)
}

/// Whether `t` spells the bytes `b`, two digits for each, the high one first.
pub open spec fn spells(t: Seq<char>, b: Seq<u8>) -> bool {
    &&& t.len() == 2 * b.len()
    &&& forall|i: int|
        0 <= i < b.len() ==> is_digit(t[2 * i], (#[trigger] b[i]) as int / 16) && is_digit(
            t[2 * i + 1],
            b[i] as int % 16,
        )
}

proof fn digit_read(c: char, v: int)
    ensures
        is_digit(c, v) ==> signature::digit_value(c) == Some(v) && !text::white(c),
        signature::digit_value(c) == Some(v) ==> is_digit(c, v),
{
}

proof fn nothing_to_trim(s: Seq<char>)
    requires
        s.len() > 0,
        !text::white(s[0]),
        !text::white(s.last()),
    ensures
        text::trimmed(s) == s,
{
    assert(text::before_white(s, s.len() as int) == s.len());
    assert(text::end_trimmed(s) =~= s);
    assert(text::past_white(s, 0) == 0);
    assert(s.subrange(0, s.len() as int) =~= s);
}

/// A hexadecimal text gives back the bytes that it spells, whatever the case of
/// its digits.
pub proof fn hex_reads_back(t: Seq<char>, b: Seq<u8>)
    requires
        b.len() > 0,
        spells(t, b),
    ensures
        signature::hex_bytes(t) == Some(b),
{
    let last = b.len() - 1;
    assert(is_digit(t[2 * 0int], b[0] as int / 16));
    assert(is_digit(t[2 * last + 1], b[last] as int % 16));
    digit_read(t[0], b[0] as int / 16);
    digit_read(t[2 * last + 1], b[last] as int % 16);
    nothing_to_trim(t);
    assert forall|i: int| 0 <= i < b.len() implies (#[trigger] signature::pair_value(
        t[2 * i],
        t[2 * i + 1],
    )) == Some(b[i] as int) by {
        assert(b[i] == b[i]);
        digit_read(t[2 * i], b[i] as int / 16);
        digit_read(t[2 * i + 1], b[i] as int % 16);
    }
    assert(signature::is_hex(t));
    assert(signature::hex_bytes(t)->0 =~= b);
}

/// What is read as hexadecimal, white space around it aside, spells what was
/// read.
pub proof fn only_hex_is_read(s: Seq<char>)
    ensures
        signature::hex_bytes(s) matches Some(b) ==> b.len() > 0 && spells(text::trimmed(s), b),
{
    if let Some(b) = signature::hex_bytes(s) {
        let t = text::trimmed(s);
        assert forall|i: int| 0 <= i < b.len() implies is_digit(t[2 * i], (#[trigger] b[i]) as int / 16)
            && is_digit(t[2 * i + 1], b[i] as int % 16) by {
            let v = signature::pair_value(t[2 * i], t[2 * i + 1])->0;
            assert(signature::pair_value(t[2 * i], t[2 * i + 1]) is Some);
            let x = signature::digit_value(t[2 * i])->0;
            let y = signature::digit_value(t[2 * i + 1])->0;
            digit_read(t[2 * i], x);
            digit_read(t[2 * i + 1], y);
            assert(0 <= x < 16 && 0 <= y < 16);
            assert(b[i] == 16 * x + y);
        }
    }
}

/// Whether an entry of a table describes the format `f`. An entry has an id, a
/// header and a ceiling above zero; its mask, where it has one, is as long as
/// its header. Without an extension a file is called `bin`, without a category
/// it is something else, and its header is where it begins unless the entry says
/// how far in. The validator `none` is none.
pub open spec fn describes(r: Row, f: Format) -> bool {
    &&& r.id == Some(f.id)
    &&& f.ext == (if r.ext is Some {
        r.ext->0
    } else {
        "bin"@
    })
    &&& f.category == signature::category_named(
        if r.category is Some {
            r.category->0
        } else {
            "other"@
        },
    )
    &&& r.header is Some
    &&& f.header.len() > 0
    &&& spells(text::trimmed(r.header->0), f.header)
    &&& r.header_mask is None ==> f.header_mask is None
    &&& r.header_mask is Some ==> f.header_mask is Some && f.header_mask->0.len() == f.header.len()
        && spells(text::trimmed(r.header_mask->0), f.header_mask->0)
    &&& f.header_offset == (if r.header_off is Some {
        r.header_off->0 as usize as int
    } else {
        0
    })
    &&& r.footer is None ==> f.footer is None
    &&& f.footer is Some ==> spells(text::trimmed(r.footer->0), f.footer->0)
    &&& r.max_size is Some
    &&& f.max_size == r.max_size->0
    &&& f.max_size > 0
    &&& f.validator == (if r.validator == Some("none"@) {
        None
    } else {
        r.validator
    })
    &&& f.note == r.note
}

proof fn is_first(rows: Seq<Row>, i: int, j: int)
    requires
        0 <= j <= i < rows.len(),
    ensures
        signature::earlier(rows, i, j) is None <==> forall|k: int|
            j <= k < i ==> (#[trigger] rows[k]).id != rows[i].id,
    decreases i - j,
{
    if j < i {
        is_first(rows, i, j + 1);
    }
}

proof fn empty_is_no_hex()
    ensures
        signature::hex_bytes(""@) is None,
{
    reveal_strlit("");
    assert(""@.len() == 0);
    assert(text::before_white(""@, 0) == 0);
}

/// An entry loads exactly where it has an id that none before it has, a header
/// in hexadecimal, a mask that is that too and as long, where it has one, and a
/// ceiling above zero; and as the format that it describes.
pub proof fn an_entry_loads_as_it_says(rows: Seq<Row>, i: int)
    requires
        0 <= i < rows.len(),
    ensures
        ({
            let r = rows[i];
            let header = signature::hex_bytes(r.header->0);
            let mask = signature::hex_bytes(r.header_mask->0);
            &&& signature::format_of(rows, i) is Ok <==> {
                &&& r.id is Some
                &&& forall|k: int| 0 <= k < i ==> (#[trigger] rows[k]).id != r.id
                &&& r.header is Some && header is Some
                &&& r.header_mask is Some ==> mask is Some && mask->0.len() == header->0.len()
                &&& r.max_size is Some && r.max_size->0 > 0
            }
            &&& signature::format_of(rows, i) matches Ok(f) ==> describes(r, f)
        }),
{
    let r = rows[i];
    is_first(rows, i, 0);
    empty_is_no_hex();
    if r.header is Some {
        only_hex_is_read(r.header->0);
    }
    if r.header_mask is Some {
        only_hex_is_read(r.header_mask->0);
    }
    if r.footer is Some {
        only_hex_is_read(r.footer->0);
    }
}

proof fn loaded_so_far(rows: Seq<Row>, n: int)
    requires
        0 <= n <= rows.len(),
    ensures
        signature::formats_upto(rows, n) is Ok <==> forall|i: int|
            0 <= i < n ==> (#[trigger] signature::format_of(rows, i)) is Ok,
        signature::formats_upto(rows, n) matches Ok(f) ==> f.len() == n && forall|i: int|
            0 <= i < n ==> (#[trigger] signature::format_of(rows, i)) == Ok::<Format, Seq<char>>(
                f[i],
            ),
    decreases n,
{
    if n > 0 {
        loaded_so_far(rows, n - 1);
        let now = signature::formats_upto(rows, n);
        if now is Ok {
            assert(signature::format_of(rows, n - 1) is Ok);
            assert forall|i: int| 0 <= i < n implies (#[trigger] signature::format_of(rows, i)) is Ok by {}
        } else if signature::formats_upto(rows, n - 1) is Err {
            let i = choose|i: int|
                0 <= i < n - 1 && !((#[trigger] signature::format_of(rows, i)) is Ok);
            assert(0 <= i < n && !(signature::format_of(rows, i) is Ok));
        }
    }
}

/// A table loads exactly where it has entries and every one of them loads; and
/// as their formats, one for each, in their order.
pub proof fn a_table_loads_entry_by_entry(rows: Seq<Row>)
    ensures
        signature::loaded(rows) is Ok <==> rows.len() > 0 && forall|i: int|
            0 <= i < rows.len() ==> (#[trigger] signature::format_of(rows, i)) is Ok,
        signature::loaded(rows) matches Ok(f) ==> {
            &&& f.len() == rows.len()
            &&& forall|i: int| 0 <= i < rows.len() ==> describes(#[trigger] rows[i], f[i])
        },
{
    loaded_so_far(rows, rows.len() as int);
    if let Ok(f) = signature::loaded(rows) {
        assert forall|i: int| 0 <= i < rows.len() implies describes(#[trigger] rows[i], f[i]) by {
            an_entry_loads_as_it_says(rows, i);
            assert(signature::format_of(rows, i) == Ok::<Format, Seq<char>>(f[i]));
        }
    }
}

} // verus!
