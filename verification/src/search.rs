//! Finding bytes and byte strings, by way of the `memchr` crate.

use vstd::prelude::*;
use crate::bytes;

verus! {

broadcast use bytes::slice_fits;

/// The first offset from `from` on at which `needle` stands in `hay`.
pub open spec fn first_from(hay: Seq<u8>, needle: Seq<u8>, from: int) -> Option<int>
    decreases hay.len() - from,
{
    if from < 0 || from + needle.len() > hay.len() {
        None
    } else if bytes::occurs_at(hay, needle, from) {
        Some(from)
    } else {
        first_from(hay, needle, from + 1)
    }
}

/// The last offset up to `upto` at which `needle` stands in `hay`.
pub open spec fn last_upto(hay: Seq<u8>, needle: Seq<u8>, upto: int) -> Option<int>
    decreases upto + 1,
{
    if upto < 0 {
        None
    } else if bytes::occurs_at(hay, needle, upto) {
        Some(upto)
    } else {
        last_upto(hay, needle, upto - 1)
    }
}

/// `memchr::memmem::find`: the offset of the first occurrence of `needle` in
/// `hay`, or `None` where there is none.
#[verifier::external_body]
pub(crate) fn find(hay: &[u8], needle: &[u8]) -> (r: Option<usize>)
    requires
        needle@.len() > 0,
    ensures
        match r {
            Some(i) => first_from(hay@, needle@, 0) == Some(i as int),
            None => first_from(hay@, needle@, 0) is None,
        },
{
    memchr::memmem::find(hay, needle)
}

/// `memchr::memmem::rfind`: the offset of the last occurrence of `needle` in
/// `hay`, or `None` where there is none.
#[verifier::external_body]
pub(crate) fn rfind(hay: &[u8], needle: &[u8]) -> (r: Option<usize>)
    requires
        needle@.len() > 0,
    ensures
        match r {
            Some(i) => last_upto(hay@, needle@, hay@.len() as int) == Some(i as int),
            None => last_upto(hay@, needle@, hay@.len() as int) is None,
        },
{
    memchr::memmem::rfind(hay, needle)
}

/// Whether `i` is the first offset in `hay` that holds one of three bytes.
pub open spec fn first_of(hay: Seq<u8>, a: u8, b: u8, c: u8, i: int) -> bool {
    &&& 0 <= i < hay.len()
    &&& hay[i] == a || hay[i] == b || hay[i] == c
    &&& none_of(hay, a, b, c, i)
}

/// Whether none of three bytes stands in `hay` before `end`.
pub open spec fn none_of(hay: Seq<u8>, a: u8, b: u8, c: u8, end: int) -> bool {
    forall|j: int|
        0 <= j < end ==> (#[trigger] hay[j]) != a && hay[j] != b && hay[j] != c
}

/// `memchr::memchr`: the offset of the first byte of `hay` that is `a`.
#[verifier::external_body]
pub(crate) fn byte(a: u8, hay: &[u8]) -> (r: Option<usize>)
    ensures
        match r {
            Some(i) => first_of(hay@, a, a, a, i as int),
            None => none_of(hay@, a, a, a, hay@.len() as int),
        },
{
    memchr::memchr(a, hay)
}

/// `memchr::memchr2`: the offset of the first byte of `hay` that is `a` or `b`.
#[verifier::external_body]
pub(crate) fn byte2(a: u8, b: u8, hay: &[u8]) -> (r: Option<usize>)
    ensures
        match r {
            Some(i) => first_of(hay@, a, b, b, i as int),
            None => none_of(hay@, a, b, b, hay@.len() as int),
        },
{
    memchr::memchr2(a, b, hay)
}

/// `memchr::memchr3`: the offset of the first byte of `hay` that is `a`, `b` or
/// `c`.
#[verifier::external_body]
pub(crate) fn byte3(a: u8, b: u8, c: u8, hay: &[u8]) -> (r: Option<usize>)
    ensures
        match r {
            Some(i) => first_of(hay@, a, b, c, i as int),
            None => none_of(hay@, a, b, c, hay@.len() as int),
        },
{
    memchr::memchr3(a, b, c, hay)
}

/// What a search finds is there, and nothing before it is.
pub proof fn first_is_first(hay: Seq<u8>, needle: Seq<u8>, from: int)
    requires
        0 <= from,
    ensures
        match first_from(hay, needle, from) {
            Some(i) => from <= i && bytes::occurs_at(hay, needle, i) && forall|j: int|
                from <= j < i ==> !#[trigger] bytes::occurs_at(hay, needle, j),
            None => forall|j: int| from <= j ==> !#[trigger] bytes::occurs_at(hay, needle, j),
        },
    decreases hay.len() - from,
{
    if from + needle.len() <= hay.len() && !bytes::occurs_at(hay, needle, from) {
        first_is_first(hay, needle, from + 1);
    }
}

/// What a search from the end finds is there, and nothing after it is.
pub proof fn last_is_last(hay: Seq<u8>, needle: Seq<u8>, upto: int)
    ensures
        match last_upto(hay, needle, upto) {
            Some(i) => 0 <= i <= upto && bytes::occurs_at(hay, needle, i) && forall|j: int|
                i < j <= upto ==> !#[trigger] bytes::occurs_at(hay, needle, j),
            None => forall|j: int| j <= upto ==> !#[trigger] bytes::occurs_at(hay, needle, j),
        },
    decreases upto + 1,
{
    if upto >= 0 && !bytes::occurs_at(hay, needle, upto) {
        last_is_last(hay, needle, upto - 1);
    }
}

proof fn shifted(hay: Seq<u8>, needle: Seq<u8>, base: int, from: int)
    requires
        0 <= base <= hay.len(),
        0 <= from,
        needle.len() > 0,
    ensures
        match first_from(hay.subrange(base, hay.len() as int), needle, from) {
            Some(i) => first_from(hay, needle, base + from) == Some(base + i) && i >= 0,
            None => first_from(hay, needle, base + from) is None,
        },
    decreases hay.len() - base - from,
{
    let tail = hay.subrange(base, hay.len() as int);
    if from + needle.len() <= tail.len() {
        assert(tail.subrange(from, from + needle.len()) =~= hay.subrange(
            base + from,
            base + from + needle.len(),
        ));
        if !bytes::occurs_at(tail, needle, from) {
            shifted(hay, needle, base, from + 1);
        }
    }
}

/// The offset of the first occurrence of `needle` at or past `from`.
pub fn find_from(hay: &[u8], needle: &[u8], from: usize) -> (r: Option<usize>)
    requires
        needle@.len() > 0,
        from <= hay@.len(),
    ensures
        match r {
            Some(i) => first_from(hay@, needle@, from as int) == Some(i as int) && from <= i && i
                + needle@.len() <= hay@.len(),
            None => first_from(hay@, needle@, from as int) is None,
        },
{
    proof {
        shifted(hay@, needle@, from as int, 0);
        first_is_first(hay@, needle@, from as int);
    }
    match find(vstd::slice::slice_subrange(hay, from, hay.len()), needle) {
        Some(i) => Some(from + i),
        None => None,
    }
}

/// How many times `needle` occurs from `from` on, without overlap.
pub open spec fn count_from(hay: Seq<u8>, needle: Seq<u8>, from: int) -> int
    decreases hay.len() - from,
    when 0 <= from && needle.len() > 0
    via counting_moves_on
{
    match first_from(hay, needle, from) {
        None => 0,
        Some(i) => 1 + count_from(hay, needle, i + needle.len()),
    }
}

#[via_fn]
proof fn counting_moves_on(hay: Seq<u8>, needle: Seq<u8>, from: int) {
    first_is_first(hay, needle, from);
}

/// How many times `needle` occurs, without overlap.
pub fn count(hay: &[u8], needle: &[u8]) -> (n: usize)
    requires
        needle@.len() > 0,
    ensures
        n == count_from(hay@, needle@, 0),
{
    let mut n: usize = 0;
    let mut from: usize = 0;
    loop
        invariant
            from <= hay@.len(),
            n <= from,
            needle@.len() > 0,
            count_from(hay@, needle@, 0) == n + count_from(hay@, needle@, from as int),
        decreases hay@.len() - from,
    {
        match find_from(hay, needle, from) {
            None => {
                return n;
            },
            Some(i) => {
                n += 1;
                from = i + needle.len();
            },
        }
    }
}

} // verus!
