//! PDF documents.

use vstd::prelude::*;
use crate::bytes;
use crate::search;
use crate::text;
use super::super::{Status, pdf};
use super::stands;

verus! {

broadcast use super::group_read;

/// `%PDF-`.
pub open spec fn head() -> Seq<u8> {
    seq![37u8, 80, 68, 70, 45]
}

/// `%%EOF`.
pub open spec fn eof() -> Seq<u8> {
    seq![37u8, 37, 69, 79, 70]
}

/// `startxref`.
pub open spec fn startxref() -> Seq<u8> {
    seq![115u8, 116, 97, 114, 116, 120, 114, 101, 102]
}

/// `xref`.
pub open spec fn xref() -> Seq<u8> {
    seq![120u8, 114, 101, 102]
}

/// A space and `obj`.
pub open spec fn obj() -> Seq<u8> {
    seq![32u8, 111, 98, 106]
}

/// `endobj`.
pub open spec fn endobj() -> Seq<u8> {
    seq![101u8, 110, 100, 111, 98, 106]
}

proof fn marks_read()
    ensures
        pdf::header_mark() == head(),
        pdf::eof_mark() == eof(),
        pdf::startxref_mark() == startxref(),
        pdf::xref_mark() == xref(),
        pdf::obj_mark() == obj(),
        pdf::endobj_mark() == endobj(),
{
    assert(pdf::header_mark() =~= head());
    assert(pdf::eof_mark() =~= eof());
    assert(pdf::startxref_mark() =~= startxref());
    assert(pdf::xref_mark() =~= xref());
    assert(pdf::obj_mark() =~= obj());
    assert(pdf::endobj_mark() =~= endobj());
}

/// Whether all of `[a, b)` are digits.
pub open spec fn digits(d: Seq<u8>, a: int, b: int) -> bool {
    forall|i: int| a <= i < b ==> 48 <= #[trigger] d[i] <= 57
}

/// The number that the digits of `[a, b)` spell.
pub open spec fn decimal(d: Seq<u8>, a: int, b: int) -> int
    decreases b - a,
{
    if b <= a {
        0
    } else {
        10 * decimal(d, a, b - 1) + (d[b - 1] - 48)
    }
}

/// Whether a document begins here, with its version.
pub open spec fn begins(d: Seq<u8>) -> bool {
    &&& d.len() >= 8
    &&& stands(d, head(), 0)
    &&& 48 <= d[5] <= 57
    &&& d[6] == 46
    &&& 48 <= d[7] <= 57
}

/// Whether `next` is where the next document begins, or else the data ends.
pub open spec fn goes_to(d: Seq<u8>, next: int) -> bool {
    &&& next == d.len() || (1 <= next && stands(d, head(), next))
    &&& 0 <= next <= d.len()
    &&& forall|q: int| 1 <= q < next ==> !#[trigger] stands(d, head(), q)
}

/// Whether `mark` stands last at `at` in what lies between `from` and `to`.
pub open spec fn stands_last(d: Seq<u8>, mark: Seq<u8>, from: int, to: int, at: int) -> bool {
    &&& from <= at
    &&& at + mark.len() <= to
    &&& stands(d, mark, at)
    &&& forall|q: int| at < q && q + mark.len() <= to ==> !#[trigger] stands(d, mark, q)
}

/// Whether the header of an indirect object stands at `at`: a number, a space,
/// a number, a space and `obj`.
pub open spec fn object_at(d: Seq<u8>, at: int) -> bool {
    exists|m: int, n: int|
        {
            &&& 0 <= at < m
            &&& m + 1 < n
            &&& digits(d, at, m)
            &&& d[m] == 32
            &&& #[trigger] digits(d, m + 1, n)
            &&& #[trigger] obj_after(d, m, n)
        }
}

/// Whether `obj` stands behind the second number of an object's header.
pub open spec fn obj_after(d: Seq<u8>, m: int, n: int) -> bool {
    m < n && stands(d, obj(), n)
}

proof fn past_these_digits(d: Seq<u8>, a: int, b: int)
    requires
        0 <= a <= b < d.len(),
        digits(d, a, b),
        !(48 <= d[b] <= 57),
    ensures
        pdf::past_digits(d, a) == b,
    decreases b - a,
{
    if a < b {
        past_these_digits(d, a + 1, b);
    }
}

proof fn digits_passed(d: Seq<u8>, a: int)
    requires
        0 <= a <= d.len(),
    ensures
        a <= pdf::past_digits(d, a) <= d.len(),
        digits(d, a, pdf::past_digits(d, a)),
    decreases d.len() - a,
{
    if a < d.len() && pdf::is_digit(d[a]) {
        digits_passed(d, a + 1);
        assert forall|i: int| a <= i < pdf::past_digits(d, a) implies 48 <= #[trigger] d[i] <= 57 by {
            if i > a {
                assert(a + 1 <= i);
            }
        }
    }
}

proof fn object_read(d: Seq<u8>, at: int)
    requires
        0 <= at <= d.len(),
    ensures
        pdf::object_header(d, at) == object_at(d, at),
{
    marks_read();
    let o = obj();
    if object_at(d, at) {
        let (m, n) = choose|m: int, n: int|
            {
                &&& 0 <= at < m
                &&& m + 1 < n
                &&& digits(d, at, m)
                &&& d[m] == 32
                &&& #[trigger] digits(d, m + 1, n)
                &&& #[trigger] obj_after(d, m, n)
            };
        assert(d[n + 0] == o[0]);
        past_these_digits(d, at, m);
        past_these_digits(d, m + 1, n);
        super::mark_read(d, o, n);
    }
    if pdf::object_header(d, at) {
        let m = pdf::past_digits(d, at);
        digits_passed(d, at);
        digits_passed(d, m + 1);
        let n = pdf::past_digits(d, m + 1);
        super::mark_read(d, o, n);
        assert(digits(d, m + 1, n) && obj_after(d, m, n));
    }
}

proof fn found_last(d: Seq<u8>, mark: Seq<u8>, from: int, to: int, at: int)
    requires
        mark.len() > 0,
        0 <= from <= to <= d.len(),
        stands_last(d, mark, from, to, at),
    ensures
        ({
            let part = d.subrange(from, to);
            search::last_upto(part, mark, part.len() as int) == Some(at - from)
        }),
{
    let part = d.subrange(from, to);
    search::last_is_last(part, mark, part.len() as int);
    assert forall|q: int| 0 <= q && q + mark.len() <= part.len() implies bytes::occurs_at(
        part,
        mark,
        q,
    ) == stands(d, mark, from + q) by {
        super::mark_read(d, mark, from + q);
        assert(part.subrange(q, q + mark.len()) =~= d.subrange(from + q, from + q + mark.len()));
    }
    assert(bytes::occurs_at(part, mark, at - from));
    let z = search::last_upto(part, mark, part.len() as int)->0;
    if z > at - from {
        assert(!stands(d, mark, from + z));
    }
}

proof fn bound_read(d: Seq<u8>, next: int)
    requires
        begins(d),
        goes_to(d, next),
    ensures
        pdf::bound(d) == next,
        next >= 1,
{
    marks_read();
    search::first_is_first(d, head(), 1);
    if let Some(p) = search::first_from(d, head(), 1) {
        super::mark_read(d, head(), p);
        assert(stands(d, head(), p));
        if p > next {
            super::mark_read(d, head(), next);
            assert(bytes::occurs_at(d, head(), next));
        }
    } else if next < d.len() {
        super::mark_read(d, head(), next);
        assert(bytes::occurs_at(d, head(), next));
    }
}

proof fn line_ends_passed(d: Seq<u8>, a: int, end: int)
    requires
        0 <= a <= end <= d.len(),
        forall|i: int| a <= i < end ==> #[trigger] d[i] == 13 || d[i] == 10,
        end < d.len() ==> d[end] != 13 && d[end] != 10,
    ensures
        pdf::past_line_ends(d, a) == end,
    decreases end - a,
{
    if a < end {
        line_ends_passed(d, a + 1, end);
    }
}

/// Whether a byte is white space.
pub open spec fn is_white(b: u8) -> bool {
    b == 13 || b == 10 || b == 32 || b == 9
}

proof fn white_passed(d: Seq<u8>, i: int, a: int, end: int)
    requires
        0 <= i <= a < end,
        forall|k: int| i <= k < a ==> is_white(#[trigger] d[k]),
        !is_white(d[a]),
    ensures
        pdf::past_space(d, i, end) == a,
    decreases a - i,
{
    if i < a {
        assert(is_white(d[i]));
        white_passed(d, i + 1, a, end);
    }
}

proof fn decimals_grow(d: Seq<u8>, a: int, i: int, b: int)
    requires
        a <= i <= b,
        digits(d, a, b),
    ensures
        0 <= decimal(d, a, i) <= decimal(d, a, b),
    decreases b - a,
{
    if a < b {
        if i == b {
            decimals_grow(d, a, i - 1, b - 1);
        } else {
            decimals_grow(d, a, i, b - 1);
        }
    }
}

proof fn number_read(d: Seq<u8>, a: int, i: int, b: int, end: int)
    requires
        0 <= a <= i <= b <= end,
        digits(d, a, b),
        b < end ==> !(48 <= d[b] <= 57),
        decimal(d, a, b) <= u64::MAX,
    ensures
        pdf::number_from(d, i, end, decimal(d, a, i)) == Some(decimal(d, a, b)),
    decreases b - i,
{
    if i < b {
        decimals_grow(d, a, i + 1, b);
        number_read(d, a, i + 1, b, end);
    }
}

/// A document ends with its last end marker before the next document, and the
/// line endings behind that. It is complete exactly where the number behind the
/// last `startxref`, in the 512 bytes before that marker, is where a
/// cross-reference table or an object begins.
pub proof fn a_document_ends_with_its_last_marker(
    d: Seq<u8>,
    next: int,
    last: int,
    end: int,
    pointer: int,
    a: int,
    b: int,
)
    requires
        begins(d),
        goes_to(d, next),
        stands_last(d, eof(), 0, next, last),
        // The line endings.
        last + 5 <= end <= d.len(),
        forall|i: int| last + 5 <= i < end ==> #[trigger] d[i] == 13 || d[i] == 10,
        end < d.len() ==> d[end] != 13 && d[end] != 10,
        // The pointer, and the digits of its number.
        stands_last(d, startxref(), bytes::larger(last - 512, 0), last, pointer),
        pointer + 9 <= a < b <= last,
        forall|k: int| pointer + 9 <= k < a ==> is_white(#[trigger] d[k]),
        digits(d, a, b),
        b < last ==> !(48 <= d[b] <= 57),
        decimal(d, a, b) <= u64::MAX,
    ensures
        ({
            let v = pdf::verdict(d);
            let at = decimal(d, a, b);
            let count = search::count_from(d.subrange(0, next), eof(), 0);
            let lands = stands(d, xref(), at) || (at <= d.len() && object_at(d, at));
            &&& v.length == end
            &&& v.status == (if lands {
                Status::Valid
            } else {
                Status::Partial
            })
            &&& !v.ran_out
            &&& v.refined_ext is None
            &&& lands ==> v.evidence == seq![
                ("version"@, text::ascii(d.subrange(5, 8))),
                ("eof_markers"@, text::dec(count)),
                ("startxref"@, text::dec(at)),
                ("incremental_updates"@, text::dec(count - 1)),
            ]
        }),
{
    marks_read();
    super::mark_read(d, head(), 0);
    bound_read(d, next);
    found_last(d, eof(), 0, next, last);
    line_ends_passed(d, last + 5, end);
    let from = bytes::larger(last - 512, 0);
    found_last(d, startxref(), from, last, pointer);
    assert(48 <= d[a] <= 57);
    white_passed(d, pointer + 9, a, last);
    number_read(d, a, a, b, last);
    decimals_grow(d, a, a, b);
    let at = decimal(d, a, b);
    super::mark_read(d, xref(), at);
    if at <= d.len() {
        object_read(d, at);
    } else {
        assert(pdf::past_digits(d, at) == at);
    }
    let v = pdf::verdict(d);
    let count = search::count_from(d.subrange(0, next), eof(), 0);
    if v.status == Status::Valid {
        assert(v.evidence =~= seq![
            ("version"@, text::ascii(d.subrange(5, 8))),
            ("eof_markers"@, text::dec(count)),
            ("startxref"@, text::dec(at)),
            ("incremental_updates"@, text::dec(count - 1)),
        ]);
    }
}

/// A document without an end marker, but with objects, is carved: up to the next
/// document, or, where the data ends instead, up to the last of its objects that
/// begins or ends there.
pub proof fn a_document_without_an_end_keeps_its_objects(
    d: Seq<u8>,
    next: int,
    object: int,
    close: int,
)
    requires
        begins(d),
        goes_to(d, next),
        forall|q: int| 0 <= q && q + 5 <= next ==> !#[trigger] stands(d, eof(), q),
        stands_last(d, obj(), 0, next, object),
        stands_last(d, endobj(), 0, next, close),
    ensures
        ({
            let v = pdf::verdict(d);
            &&& v.status == Status::Partial
            &&& v.length == (if next < d.len() {
                next
            } else {
                bytes::larger(object + 4, close + 6)
            })
            &&& v.ran_out == (next == d.len())
            &&& !v.length_established
        }),
{
    marks_read();
    super::mark_read(d, head(), 0);
    bound_read(d, next);
    let own = d.subrange(0, next);
    search::last_is_last(own, eof(), own.len() as int);
    if let Some(z) = search::last_upto(own, eof(), own.len() as int) {
        super::mark_read(d, eof(), z);
        assert(own.subrange(z, z + 5) =~= d.subrange(z, z + 5));
        assert(stands(d, eof(), z));
    }
    found_last(d, obj(), 0, next, object);
    found_last(d, endobj(), 0, next, close);
}

} // verus!
