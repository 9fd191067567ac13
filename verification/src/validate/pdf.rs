//! PDF: from the header to the right `%%EOF`, with the cross-reference checked.
//!
//! An edited PDF carries several `%%EOF` markers, one per incremental update,
//! and the file ends at the last of them. The last one in the data is just as
//! wrong where the next file on the disk is a PDF too, so the search is
//! bounded at the next header. What raises this above string matching is
//! `startxref`: it names an offset that has to land on a cross-reference.

use vstd::prelude::*;
use vstd::slice::*;
use crate::bytes;
use crate::search;
use crate::text;
use super::{Outcome, Verdict};

verus! {

broadcast use bytes::slice_fits;

/// `%PDF-`.
pub open spec fn header_mark() -> Seq<u8> {
    seq![0x25u8, 0x50, 0x44, 0x46, 0x2D]
}

/// `%%EOF`.
pub open spec fn eof_mark() -> Seq<u8> {
    seq![0x25u8, 0x25, 0x45, 0x4F, 0x46]
}

/// `startxref`.
pub open spec fn startxref_mark() -> Seq<u8> {
    seq![0x73u8, 0x74, 0x61, 0x72, 0x74, 0x78, 0x72, 0x65, 0x66]
}

/// `xref`.
pub open spec fn xref_mark() -> Seq<u8> {
    seq![0x78u8, 0x72, 0x65, 0x66]
}

/// A space, then `obj`.
pub open spec fn obj_mark() -> Seq<u8> {
    seq![0x20u8, 0x6F, 0x62, 0x6A]
}

/// `endobj`.
pub open spec fn endobj_mark() -> Seq<u8> {
    seq![0x65u8, 0x6E, 0x64, 0x6F, 0x62, 0x6A]
}

pub open spec fn is_digit(b: u8) -> bool {
    0x30 <= b <= 0x39
}

/// The first offset at or past `i` that holds no digit.
pub open spec fn past_digits(t: Seq<u8>, i: int) -> int
    decreases t.len() - i,
{
    if 0 <= i < t.len() && is_digit(t[i]) {
        past_digits(t, i + 1)
    } else {
        i
    }
}

/// Whether the bytes at `at` are the header of an indirect object, such as
/// `12 0 obj`, which is what a cross-reference stream starts with.
pub open spec fn object_header(d: Seq<u8>, at: int) -> bool {
    let number = past_digits(d, at);
    let generation = past_digits(d, number + 1);
    &&& number > at
    &&& number < d.len()
    &&& d[number] == 0x20
    &&& generation > number + 1
    &&& bytes::occurs_at(d, obj_mark(), generation)
}

/// The first offset at or past `i`, up to `end`, that holds no white space.
pub open spec fn past_space(t: Seq<u8>, i: int, end: int) -> int
    decreases end - i,
{
    if 0 <= i < end && (t[i] == 0x0D || t[i] == 0x0A || t[i] == 0x20 || t[i] == 0x09) {
        past_space(t, i + 1, end)
    } else {
        i
    }
}

/// The decimal number at `i`, up to `end`, after the digits of value `v`;
/// `None` where it does not fit in 64 bits.
pub open spec fn number_from(t: Seq<u8>, i: int, end: int, v: int) -> Option<int>
    decreases end - i,
{
    if !(0 <= i < end) || !is_digit(t[i]) {
        Some(v)
    } else if v * 10 + (t[i] - 0x30) > u64::MAX {
        None
    } else {
        number_from(t, i + 1, end, v * 10 + (t[i] - 0x30))
    }
}

/// The decimal number in `[i, end)` after white space, where there is one.
pub open spec fn offset_in(t: Seq<u8>, i: int, end: int) -> Option<int> {
    let at = past_space(t, i, end);
    if at < end && is_digit(t[at]) {
        number_from(t, at, end, 0)
    } else {
        None
    }
}

/// The end of the line endings that follow `at`.
pub open spec fn past_line_ends(d: Seq<u8>, at: int) -> int
    decreases d.len() - at,
{
    if 0 <= at < d.len() && (d[at] == 0x0D || d[at] == 0x0A) {
        past_line_ends(d, at + 1)
    } else {
        at
    }
}

/// Where the next file's header begins, or where the data ends.
pub open spec fn bound(d: Seq<u8>) -> int {
    match search::first_from(d, header_mark(), 1) {
        Some(p) => p,
        None => d.len() as int,
    }
}

/// The furthest object marker in a file without a trailer, `own` being the
/// part of the data that is its own and `last` its last object header.
pub open spec fn object_extent(own: Seq<u8>, last: int) -> int {
    match search::last_upto(own, endobj_mark(), own.len() as int) {
        Some(p) => bytes::larger(p + 6, last + 4),
        None => last + 4,
    }
}

/// A file without a trailer: a truncated PDF where it has objects. Up to the
/// next file's header all of the data is its own, and nothing past that header
/// can complete it. Where the data ends instead, its objects say how far it
/// reaches.
pub open spec fn without_trailer(d: Seq<u8>, own: Seq<u8>) -> Verdict {
    match search::last_upto(own, obj_mark(), own.len() as int) {
        Some(last) => if own.len() < d.len() {
            Verdict::partial(
                own.len() as int,
                "no %%EOF trailer; the file is truncated"@,
            ).with("version"@, text::ascii(d.subrange(5, 8))).with("truncated"@, "true"@)
        } else {
            Verdict::partial(
                object_extent(own, last),
                "no %%EOF trailer; the file is truncated"@,
            ).with("version"@, text::ascii(d.subrange(5, 8))).truncated()
        },
        None => Verdict::reject("no %%EOF and no object definitions"@).cut_if(
            own.len() == d.len(),
        ),
    }
}

/// A file whose last `%%EOF` is at `last`, the `count`-th.
pub open spec fn with_trailer(d: Seq<u8>, last: int, count: int) -> Verdict {
    let end = past_line_ends(d, last + 5);
    let version = text::ascii(d.subrange(5, 8));
    let from = if last >= 512 {
        last - 512
    } else {
        0
    };
    let trailer = d.subrange(from, last);
    match search::last_upto(trailer, startxref_mark(), trailer.len() as int) {
        None => Verdict::partial(end, "the final trailer has no startxref"@).with(
            "version"@,
            version,
        ).with("eof_markers"@, text::dec(count)),
        Some(p) => match offset_in(d, from + p + 9, last) {
            None => Verdict::partial(end, "startxref is not followed by a number"@).with(
                "version"@,
                version,
            ).with("eof_markers"@, text::dec(count)),
            Some(offset) => if bytes::occurs_at(d, xref_mark(), offset) || object_header(d, offset) {
                Verdict::valid(end).with("version"@, version).with(
                    "eof_markers"@,
                    text::dec(count),
                ).with("startxref"@, text::dec(offset)).with(
                    "incremental_updates"@,
                    text::dec(count - 1),
                )
            } else {
                // The index does not point at an index.
                Verdict::partial(
                    end,
                    "startxref points to "@ + text::dec(offset)
                        + ", which is not an xref table or stream"@,
                ).with("version"@, version).with("eof_markers"@, text::dec(count)).with(
                    "startxref"@,
                    text::dec(offset),
                )
            },
        },
    }
}

/// Whether the bytes that are there begin a PDF and its version.
pub open spec fn begun(d: Seq<u8>) -> bool {
    &&& bytes::agrees(d, header_mark(), 0)
    &&& d.len() > 5 ==> is_digit(d[5])
    &&& d.len() > 6 ==> d[6] == 0x2E
}

/// What the bytes of `d` are as a PDF.
pub open spec fn verdict(d: Seq<u8>) -> Verdict {
    let own = d.subrange(0, bound(d));
    if d.len() < 8 {
        Verdict::reject("shorter than a PDF header"@).cut_if(begun(d))
    } else if !bytes::begins(d, header_mark()) {
        Verdict::reject("does not begin with %PDF-"@)
    } else if !(is_digit(d[5]) && d[6] == 0x2E && is_digit(d[7])) {
        Verdict::reject("the version after %PDF- is not N.N"@)
    } else {
        match search::last_upto(own, eof_mark(), own.len() as int) {
            None => without_trailer(d, own),
            Some(last) => with_trailer(d, last, search::count_from(own, eof_mark(), 0)),
        }
    }
}

fn digit(b: u8) -> (r: bool)
    ensures
        r == is_digit(b),
{
    0x30 <= b && b <= 0x39
}

fn skip_digits(d: &[u8], at: usize) -> (r: usize)
    requires
        at <= d@.len(),
    ensures
        r == past_digits(d@, at as int),
        at <= r <= d@.len(),
{
    let mut i: usize = at;
    while i < d.len() && digit(d[i])
        invariant
            at <= i <= d@.len(),
            past_digits(d@, at as int) == past_digits(d@, i as int),
        decreases d@.len() - i,
    {
        i += 1;
    }
    i
}

/// Whether an indirect object begins at `at`.
fn looks_like_object_header(d: &[u8], at: usize) -> (r: bool)
    requires
        at <= d@.len(),
    ensures
        r == object_header(d@, at as int),
{
    let mark: [u8; 4] = [0x20, 0x6F, 0x62, 0x6A];
    assert(mark@ =~= obj_mark());
    let number: usize = skip_digits(d, at);
    if number == at || number >= d.len() || d[number] != 0x20 {
        return false;
    }
    let generation: usize = skip_digits(d, number + 1);
    generation > number + 1 && bytes::stands_at(d, &mark, generation)
}

/// The decimal number between `start` and `end`.
fn parse_offset(d: &[u8], start: usize, end: usize) -> (r: Option<u64>)
    requires
        start <= end <= d@.len(),
    ensures
        match r {
            Some(v) => offset_in(d@, start as int, end as int) == Some(v as int),
            None => offset_in(d@, start as int, end as int) is None,
        },
{
    let mut i: usize = start;
    while i < end && (d[i] == 0x0D || d[i] == 0x0A || d[i] == 0x20 || d[i] == 0x09)
        invariant
            start <= i <= end <= d@.len(),
            past_space(d@, start as int, end as int) == past_space(d@, i as int, end as int),
        decreases end - i,
    {
        i += 1;
    }
    if i >= end || !digit(d[i]) {
        return None;
    }
    let ghost whole = number_from(d@, i as int, end as int, 0);
    let mut v: u64 = 0;
    while i < end && digit(d[i])
        invariant
            i <= end <= d@.len(),
            whole == number_from(d@, i as int, end as int, v as int),
            whole == offset_in(d@, start as int, end as int),
        decreases end - i,
    {
        let next: u128 = v as u128 * 10 + (d[i] - 0x30) as u128;
        if next > 0xFFFF_FFFF_FFFF_FFFFu128 {
            return None;
        }
        v = next as u64;
        i += 1;
    }
    Some(v)
}

fn skip_line_ends(d: &[u8], at: usize) -> (r: usize)
    requires
        at <= d@.len(),
    ensures
        r == past_line_ends(d@, at as int),
        at <= r <= d@.len(),
{
    let mut i: usize = at;
    while i < d.len() && (d[i] == 0x0D || d[i] == 0x0A)
        invariant
            at <= i <= d@.len(),
            past_line_ends(d@, at as int) == past_line_ends(d@, i as int),
        decreases d@.len() - i,
    {
        i += 1;
    }
    i
}

/// A file without a trailer.
fn no_trailer(d: &[u8], own: &[u8], version: String) -> (r: Outcome)
    requires
        version@ == text::ascii(d@.subrange(5, 8)),
    ensures
        r@ == without_trailer(d@, own@),
{
    let obj: [u8; 4] = [0x20, 0x6F, 0x62, 0x6A];
    let endobj: [u8; 6] = [0x65, 0x6E, 0x64, 0x6F, 0x62, 0x6A];
    assert(obj@ =~= obj_mark());
    assert(endobj@ =~= endobj_mark());
    proof {
        search::last_is_last(own@, obj_mark(), own@.len() as int);
        search::last_is_last(own@, endobj_mark(), own@.len() as int);
    }
    match search::rfind(own, &obj) {
        None => Outcome::reject("no %%EOF and no object definitions").cut_if(
            own.len() == d.len(),
        ),
        Some(last) => {
            if own.len() < d.len() {
                return Outcome::partial(
                    own.len() as u64,
                    "no %%EOF trailer; the file is truncated",
                ).with("version", version).with("truncated", true);
            }
            // The furthest object marker, not the size of the data.
            let mut extent: u64 = last as u64 + 4;
            if let Some(p) = search::rfind(own, &endobj) {
                extent = bytes::max64(p as u64 + 6, extent);
            }
            Outcome::partial(extent, "no %%EOF trailer; the file is truncated").with(
                "version",
                version,
            ).truncated()
        },
    }
}

/// A file whose last `%%EOF` is at `last`.
fn trailer(d: &[u8], last: usize, count: usize, version: String) -> (r: Outcome)
    requires
        last + 5 <= d@.len(),
        count >= 1,
        version@ == text::ascii(d@.subrange(5, 8)),
    ensures
        r@ == with_trailer(d@, last as int, count as int),
{
    let end: u64 = skip_line_ends(d, last + 5) as u64;
    let startxref: [u8; 9] = [0x73, 0x74, 0x61, 0x72, 0x74, 0x78, 0x72, 0x65, 0x66];
    let xref: [u8; 4] = [0x78, 0x72, 0x65, 0x66];
    assert(startxref@ =~= startxref_mark());
    assert(xref@ =~= xref_mark());
    let from: usize = if last >= 512 {
        last - 512
    } else {
        0
    };
    let window: &[u8] = slice_subrange(d, from, last);
    proof {
        search::last_is_last(window@, startxref_mark(), window@.len() as int);
    }
    let p: usize = match search::rfind(window, &startxref) {
        Some(p) => p,
        None => {
            return Outcome::partial(end, "the final trailer has no startxref").with(
                "version",
                version,
            ).with("eof_markers", count);
        },
    };
    let offset: u64 = match parse_offset(d, from + p + 9, last) {
        Some(v) => v,
        None => {
            return Outcome::partial(end, "startxref is not followed by a number").with(
                "version",
                version,
            ).with("eof_markers", count);
        },
    };
    let lands: bool = offset <= d.len() as u64 && (bytes::stands_at(d, &xref, offset as usize)
        || looks_like_object_header(d, offset as usize));
    if !lands {
        return Outcome::partial(
            end,
            text::cat3(
                "startxref points to ",
                text::decimal(offset).as_str(),
                ", which is not an xref table or stream",
            ).as_str(),
        ).with("version", version).with("eof_markers", count).with("startxref", offset);
    }
    Outcome::valid(end).with("version", version).with("eof_markers", count).with(
        "startxref",
        offset,
    ).with("incremental_updates", count - 1)
}

proof fn counted_when_present(hay: Seq<u8>, needle: Seq<u8>, from: int)
    requires
        needle.len() > 0,
        0 <= from,
    ensures
        search::count_from(hay, needle, from) >= 0,
        search::first_from(hay, needle, from) is Some ==> search::count_from(hay, needle, from) >= 1,
    decreases hay.len() - from,
{
    search::first_is_first(hay, needle, from);
    if let Some(i) = search::first_from(hay, needle, from) {
        counted_when_present(hay, needle, i + needle.len());
    }
}

/// PDF: the end of the last trailer before the next file.
pub fn validate(d: &[u8]) -> (r: Outcome)
    ensures
        r@ == verdict(d@),
{
    let header: [u8; 5] = [0x25, 0x50, 0x44, 0x46, 0x2D];
    let eof: [u8; 5] = [0x25, 0x25, 0x45, 0x4F, 0x46];
    assert(header@ =~= header_mark());
    assert(eof@ =~= eof_mark());
    if d.len() < 8 {
        return Outcome::reject("shorter than a PDF header").cut_if(
            bytes::agrees_at(d, &header, 0) && (d.len() <= 5 || digit(d[5])) && (d.len() <= 6
                || d[6] == 0x2E),
        );
    }
    if !bytes::stands_at(d, &header, 0) {
        return Outcome::reject("does not begin with %PDF-");
    }
    if !(digit(d[5]) && d[6] == 0x2E && digit(d[7])) {
        return Outcome::reject("the version after %PDF- is not N.N");
    }
    let version = text::from_ascii(slice_subrange(d, 5, 8));
    // Searching from byte 1, so that our own header is not the hit.
    let stop: usize = match search::find_from(d, &header, 1) {
        Some(p) => p,
        None => d.len(),
    };
    let own: &[u8] = slice_subrange(d, 0, stop);
    proof {
        search::last_is_last(own@, eof_mark(), own@.len() as int);
        search::first_is_first(own@, eof_mark(), 0);
        counted_when_present(own@, eof_mark(), 0);
    }
    match search::rfind(own, &eof) {
        None => no_trailer(d, own, version),
        Some(last) => {
            let count: usize = search::count(own, &eof);
            trailer(d, last, count, version)
        },
    }
}

proof fn line_ends_stay_inside(d: Seq<u8>, at: int)
    requires
        0 <= at <= d.len(),
    ensures
        at <= past_line_ends(d, at) <= d.len(),
    decreases d.len() - at,
{
    if at < d.len() && (d[at] == 0x0D || d[at] == 0x0A) {
        line_ends_stay_inside(d, at + 1);
    }
}

/// A rejection claims no length, a complete file is all there, and a damaged
/// one claims no more than was there unless it states its own size.
pub proof fn is_sound(d: Seq<u8>)
    ensures
        verdict(d).sound_for(d.len() as int),
{
    let own = d.subrange(0, bound(d));
    search::first_is_first(d, header_mark(), 1);
    search::last_is_last(own, eof_mark(), own.len() as int);
    search::last_is_last(own, obj_mark(), own.len() as int);
    search::last_is_last(own, endobj_mark(), own.len() as int);
    if let Some(last) = search::last_upto(own, eof_mark(), own.len() as int) {
        line_ends_stay_inside(d, last + 5);
    }
}

} // verus!
