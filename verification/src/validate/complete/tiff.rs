//! TIFF images.

use vstd::prelude::*;
use crate::bytes;
use crate::text;
use super::super::{Status, structured};
use super::{be16, be32, le16, le32};

verus! {

broadcast use super::group_read;

/// Two bytes in the order that the file states.
pub open spec fn half(d: Seq<u8>, at: int) -> int {
    if d[0] == 77 {
        be16(d, at)
    } else {
        le16(d, at)
    }
}

/// Four bytes in the order that the file states.
pub open spec fn word(d: Seq<u8>, at: int) -> int {
    if d[0] == 77 {
        be32(d, at)
    } else {
        le32(d, at)
    }
}

/// Whether a TIFF header begins here, in either byte order.
pub open spec fn begins(d: Seq<u8>) -> bool {
    &&& d.len() >= 8
    &&& (d[0] == 73 && d[1] == 73) || (d[0] == 77 && d[1] == 77)
    &&& half(d, 2) == 42
    &&& word(d, 4) >= 8
}

/// Where the directory at `at` ends: a count, twelve bytes for each entry, and
/// where the next directory is.
pub open spec fn ifd_end(d: Seq<u8>, at: int) -> int {
    at + 6 + 12 * half(d, at)
}

/// Whether the `r`-th directory is one, of 1 to 512 entries, and leads to the
/// next.
pub open spec fn nth_ifd(d: Seq<u8>, ifds: Seq<int>, r: int) -> bool {
    &&& 0 < ifds[r]
    &&& 1 <= half(d, ifds[r]) <= 512
    &&& ifd_end(d, ifds[r]) <= d.len()
    &&& ifds[r + 1] == word(d, ifd_end(d, ifds[r]) - 4)
}

/// Whether `ifds` are where the directories are, 64 of them at most, with a zero
/// behind the last.
pub open spec fn chained(d: Seq<u8>, ifds: Seq<int>) -> bool {
    &&& 1 < ifds.len() <= 65
    &&& ifds[0] == word(d, 4)
    &&& ifds.last() == 0
    &&& forall|r: int| 0 <= r < ifds.len() - 1 ==> #[trigger] nth_ifd(d, ifds, r)
}

/// Whether `slots` are where the entries of the directories are, one directory
/// after the other, and `first` which of them is the first of each.
pub open spec fn listed(d: Seq<u8>, ifds: Seq<int>, first: Seq<int>, slots: Seq<int>) -> bool {
    &&& first.len() == ifds.len()
    &&& first[0] == 0
    &&& first.last() == slots.len()
    &&& forall|r: int| 0 <= r < ifds.len() - 1 ==> #[trigger] nth_first(d, ifds, first, slots, r)
}

/// Whether the entries of the `r`-th directory are where they should be.
pub open spec fn nth_first(
    d: Seq<u8>,
    ifds: Seq<int>,
    first: Seq<int>,
    slots: Seq<int>,
    r: int,
) -> bool {
    &&& 0 <= first[r]
    &&& first[r + 1] == first[r] + half(d, ifds[r])
    &&& first[r + 1] <= slots.len()
    &&& forall|i: int|
        0 <= i < half(d, ifds[r]) ==> #[trigger] slots[first[r] + i] == ifds[r] + 2 + 12 * i
}

/// The bytes that one value of a type takes; none for an unknown type.
pub open spec fn unit(typ: int) -> int {
    if typ == 3 || typ == 8 {
        2
    } else if typ == 4 || typ == 9 || typ == 11 {
        4
    } else if typ == 5 || typ == 10 || typ == 12 {
        8
    } else if typ == 1 || typ == 2 || typ == 6 || typ == 7 {
        1
    } else {
        0
    }
}

/// How many bytes the values of the entry at `at` take.
pub open spec fn held(d: Seq<u8>, at: int) -> int {
    unit(half(d, at + 2)) * word(d, at + 4)
}

/// Where the values of the entry at `at` begin: in the entry itself where they
/// fit in its last four bytes, else where those point.
pub open spec fn values_at(d: Seq<u8>, at: int) -> int {
    if held(d, at) <= 4 {
        at + 8
    } else {
        word(d, at + 8)
    }
}

/// The `k`-th value of the entry at `at`, a number of two bytes or of four.
pub open spec fn value(d: Seq<u8>, at: int, k: int) -> int {
    if half(d, at + 2) == 3 {
        half(d, values_at(d, at) + 2 * k)
    } else {
        word(d, values_at(d, at) + 4 * k)
    }
}

/// Whether the values of the entry at `at` are numbers of two or four bytes, all
/// there.
pub open spec fn has_numbers(d: Seq<u8>, at: int) -> bool {
    &&& half(d, at + 2) == 3 || half(d, at + 2) == 4
    &&& values_at(d, at) + held(d, at) <= d.len()
}

/// The value of the last of the first `n` entries with this tag, or zero.
pub open spec fn tagged(d: Seq<u8>, slots: Seq<int>, n: int, tag: int) -> int
    decreases n,
{
    if n <= 0 {
        0
    } else if half(d, slots[n - 1]) == tag {
        value(d, slots[n - 1], 0)
    } else {
        tagged(d, slots, n - 1, tag)
    }
}

/// Whether the entries with the tags of a dimension have a number.
pub open spec fn sized(d: Seq<u8>, slots: Seq<int>) -> bool {
    forall|i: int|
        0 <= i < slots.len() && (half(d, #[trigger] slots[i]) == 256 || half(d, slots[i]) == 257)
            ==> has_numbers(d, slots[i]) && word(d, slots[i] + 4) > 0
}

/// Whether `all` are the values of the entries with this tag, of no more than
/// 4096 each, and `starts` where those of each entry begin among them.
pub open spec fn gathered(
    d: Seq<u8>,
    slots: Seq<int>,
    tag: int,
    all: Seq<int>,
    starts: Seq<int>,
) -> bool {
    &&& starts.len() == slots.len() + 1
    &&& starts[0] == 0
    &&& starts.last() == all.len()
    &&& forall|i: int| 0 <= i < slots.len() ==> #[trigger] nth_gathered(d, slots, tag, all, starts, i)
}

/// Whether the values of the `i`-th entry are where they should be.
pub open spec fn nth_gathered(
    d: Seq<u8>,
    slots: Seq<int>,
    tag: int,
    all: Seq<int>,
    starts: Seq<int>,
    i: int,
) -> bool {
    let at = slots[i];
    &&& 0 <= starts[i] <= starts[i + 1] <= all.len()
    &&& if half(d, at) == tag {
        &&& has_numbers(d, at)
        &&& word(d, at + 4) <= 4096
        &&& starts[i + 1] == starts[i] + word(d, at + 4)
        &&& forall|k: int| 0 <= k < word(d, at + 4) ==> #[trigger] all[starts[i] + k] == value(d, at, k)
    } else {
        starts[i + 1] == starts[i]
    }
}

/// Whether `n` reaches past everything that the directories, their entries and
/// the strips point at, and no further.
pub open spec fn reaches(
    d: Seq<u8>,
    ifds: Seq<int>,
    slots: Seq<int>,
    offsets: Seq<int>,
    counts: Seq<int>,
    n: int,
) -> bool {
    &&& forall|r: int| 0 <= r < ifds.len() - 1 ==> n >= ifd_end(d, #[trigger] ifds[r])
    &&& forall|i: int|
        0 <= i < slots.len() && held(d, #[trigger] slots[i]) > 4 ==> n >= values_at(d, slots[i])
            + held(d, slots[i])
    &&& forall|i: int| 0 <= i < offsets.len() ==> n >= #[trigger] offsets[i] + counts[i]
    &&& {
        ||| exists|r: int| 0 <= r < ifds.len() - 1 && n == ifd_end(d, #[trigger] ifds[r])
        ||| exists|i: int|
            0 <= i < slots.len() && held(d, #[trigger] slots[i]) > 4 && n == values_at(d, slots[i])
                + held(d, slots[i])
        ||| exists|i: int| 0 <= i < offsets.len() && n == #[trigger] offsets[i] + counts[i]
    }
}

/// What has been read of the directories: `m` entries, and the headers of `r`.
spec fn read_so_far(
    d: Seq<u8>,
    ifds: Seq<int>,
    slots: Seq<int>,
    offsets: Seq<int>,
    ostarts: Seq<int>,
    counts: Seq<int>,
    cstarts: Seq<int>,
    s: structured::Directories,
    r: int,
    m: int,
) -> bool {
    &&& s.entries == m
    &&& s.width == tagged(d, slots, m, 256)
    &&& s.height == tagged(d, slots, m, 257)
    &&& s.strip_offsets == offsets.subrange(0, ostarts[m])
    &&& s.strip_counts == counts.subrange(0, cstarts[m])
    &&& s.end >= 8
    &&& forall|q: int| 0 <= q < r ==> s.end >= ifd_end(d, #[trigger] ifds[q])
    &&& forall|i: int|
        0 <= i < m && held(d, #[trigger] slots[i]) > 4 ==> s.end >= values_at(d, slots[i]) + held(
            d,
            slots[i],
        )
    &&& {
        ||| s.end == 8
        ||| exists|q: int| 0 <= q < r && s.end == ifd_end(d, #[trigger] ifds[q])
        ||| exists|i: int|
            0 <= i < m && held(d, #[trigger] slots[i]) > 4 && s.end == values_at(d, slots[i]) + held(
                d,
                slots[i],
            )
    }
}

proof fn unit_read(typ: int)
    ensures
        structured::type_size(typ) == unit(typ),
{
}

proof fn value_read(d: Seq<u8>, at: int, k: int)
    requires
        0 <= at,
        at + 12 <= d.len(),
        has_numbers(d, at),
        0 <= k < word(d, at + 4),
    ensures
        structured::tiff_value(d, at, half(d, at + 2), k, d[0] == 77) == Some(value(d, at, k)),
{
    let u = unit(half(d, at + 2));
    let n = word(d, at + 4);
    unit_read(half(d, at + 2));
    assert(k * u + u <= u * n) by (nonlinear_arith)
        requires
            0 <= k < n,
            u > 0,
    ;
    assert(k * u == u * k) by (nonlinear_arith);
}

proof fn values_read(d: Seq<u8>, at: int, all: Seq<int>, start: int, k: int)
    requires
        0 <= at,
        at + 12 <= d.len(),
        has_numbers(d, at),
        0 <= k <= word(d, at + 4),
        0 <= start,
        start + word(d, at + 4) <= all.len(),
        forall|j: int| 0 <= j < word(d, at + 4) ==> #[trigger] all[start + j] == value(d, at, j),
    ensures
        structured::tiff_values(
            d,
            at,
            half(d, at + 2),
            d[0] == 77,
            k,
            word(d, at + 4),
            all.subrange(0, start + k),
        ) == all.subrange(0, start + word(d, at + 4)),
    decreases word(d, at + 4) - k,
{
    if k < word(d, at + 4) {
        value_read(d, at, k);
        assert(all[start + k] == value(d, at, k));
        assert(all.subrange(0, start + k).push(value(d, at, k)) =~= all.subrange(0, start + k + 1));
        values_read(d, at, all, start, k + 1);
    }
}

proof fn entry_read(
    d: Seq<u8>,
    ifds: Seq<int>,
    slots: Seq<int>,
    offsets: Seq<int>,
    ostarts: Seq<int>,
    counts: Seq<int>,
    cstarts: Seq<int>,
    s: structured::Directories,
    r: int,
    m: int,
)
    requires
        0 <= m < slots.len(),
        0 <= slots[m],
        slots[m] + 12 <= d.len(),
        sized(d, slots),
        gathered(d, slots, 273, offsets, ostarts),
        gathered(d, slots, 279, counts, cstarts),
        read_so_far(d, ifds, slots, offsets, ostarts, counts, cstarts, s, r, m),
    ensures
        ({
            let s1 = structured::tiff_entry(d, d[0] == 77, slots[m], s);
            &&& read_so_far(d, ifds, slots, offsets, ostarts, counts, cstarts, s1, r, m + 1)
            &&& s1.ifds == s.ifds
            &&& s1.own == s.own
        }),
{
    let at = slots[m];
    let tag = half(d, at);
    let s1 = structured::tiff_entry(d, d[0] == 77, at, s);
    unit_read(half(d, at + 2));
    assert(nth_gathered(d, slots, 273, offsets, ostarts, m));
    assert(nth_gathered(d, slots, 279, counts, cstarts, m));
    assert(tagged(d, slots, m + 1, 256) == (if tag == 256 {
        value(d, at, 0)
    } else {
        tagged(d, slots, m, 256)
    }));
    assert(tagged(d, slots, m + 1, 257) == (if tag == 257 {
        value(d, at, 0)
    } else {
        tagged(d, slots, m, 257)
    }));
    if tag == 256 || tag == 257 {
        value_read(d, at, 0);
    }
    if tag == 273 {
        values_read(d, at, offsets, ostarts[m], 0);
    }
    if tag == 279 {
        values_read(d, at, counts, cstarts[m], 0);
    }
    assert(s1.strip_offsets == offsets.subrange(0, ostarts[m + 1]));
    assert(s1.strip_counts == counts.subrange(0, cstarts[m + 1]));
    let out = if held(d, at) > 4 {
        bytes::larger(s.end, values_at(d, at) + held(d, at))
    } else {
        s.end
    };
    assert(s1.end == out);
    assert forall|i: int| 0 <= i < m + 1 && held(d, #[trigger] slots[i]) > 4 implies s1.end
        >= values_at(d, slots[i]) + held(d, slots[i]) by {}
    if s1.end == s.end {
        if exists|i: int|
            0 <= i < m && held(d, #[trigger] slots[i]) > 4 && s.end == values_at(d, slots[i]) + held(
                d,
                slots[i],
            ) {
            let i = choose|i: int|
                0 <= i < m && held(d, #[trigger] slots[i]) > 4 && s.end == values_at(d, slots[i])
                    + held(d, slots[i]);
            assert(0 <= i < m + 1 && held(d, slots[i]) > 4);
        }
    } else {
        assert(held(d, slots[m]) > 4 && s1.end == values_at(d, slots[m]) + held(d, slots[m]));
    }
}

proof fn along_the_entries(
    d: Seq<u8>,
    ifds: Seq<int>,
    first: Seq<int>,
    slots: Seq<int>,
    offsets: Seq<int>,
    ostarts: Seq<int>,
    counts: Seq<int>,
    cstarts: Seq<int>,
    s: structured::Directories,
    r: int,
    i: int,
)
    requires
        chained(d, ifds),
        listed(d, ifds, first, slots),
        0 <= r < ifds.len() - 1,
        0 <= i <= half(d, ifds[r]),
        sized(d, slots),
        gathered(d, slots, 273, offsets, ostarts),
        gathered(d, slots, 279, counts, cstarts),
        read_so_far(d, ifds, slots, offsets, ostarts, counts, cstarts, s, r + 1, first[r] + i),
    ensures
        ({
            let s1 = structured::tiff_entries(d, d[0] == 77, ifds[r], half(d, ifds[r]), i, s);
            &&& read_so_far(
                d,
                ifds,
                slots,
                offsets,
                ostarts,
                counts,
                cstarts,
                s1,
                r + 1,
                first[r + 1],
            )
            &&& s1.ifds == s.ifds
        }),
    decreases half(d, ifds[r]) - i,
{
    assert(nth_first(d, ifds, first, slots, r));
    assert(nth_ifd(d, ifds, r));
    if i < half(d, ifds[r]) {
        let m = first[r] + i;
        assert(slots[first[r] + i] == ifds[r] + 2 + 12 * i);
        entry_read(d, ifds, slots, offsets, ostarts, counts, cstarts, s, r + 1, m);
        let s1 = structured::tiff_entry(d, d[0] == 77, slots[m], s);
        along_the_entries(
            d,
            ifds,
            first,
            slots,
            offsets,
            ostarts,
            counts,
            cstarts,
            s1,
            r,
            i + 1,
        );
    }
}

proof fn along_the_chain(
    d: Seq<u8>,
    ifds: Seq<int>,
    first: Seq<int>,
    slots: Seq<int>,
    offsets: Seq<int>,
    ostarts: Seq<int>,
    counts: Seq<int>,
    cstarts: Seq<int>,
    s: structured::Directories,
    r: int,
)
    requires
        chained(d, ifds),
        listed(d, ifds, first, slots),
        0 <= r < ifds.len(),
        sized(d, slots),
        gathered(d, slots, 273, offsets, ostarts),
        gathered(d, slots, 279, counts, cstarts),
        s.ifds == r,
        read_so_far(d, ifds, slots, offsets, ostarts, counts, cstarts, s, r, first[r]),
    ensures
        structured::tiff_chain(d, d[0] == 77, ifds[r], r, s) matches Ok(s1) && s1.ifds == ifds.len()
            - 1 && read_so_far(
            d,
            ifds,
            slots,
            offsets,
            ostarts,
            counts,
            cstarts,
            s1,
            ifds.len() - 1,
            slots.len() as int,
        ),
    decreases ifds.len() - r,
{
    if r < ifds.len() - 1 {
        assert(nth_ifd(d, ifds, r));
        let end = ifd_end(d, ifds[r]);
        let s0 = structured::Directories {
            end: bytes::larger(s.end, end),
            own: bytes::larger(s.own, end),
            ..s
        };
        assert(read_so_far(
            d,
            ifds,
            slots,
            offsets,
            ostarts,
            counts,
            cstarts,
            s0,
            r + 1,
            first[r],
        )) by {
            if s0.end == s.end {
                if exists|q: int| 0 <= q < r && s.end == ifd_end(d, #[trigger] ifds[q]) {
                    let q = choose|q: int| 0 <= q < r && s.end == ifd_end(d, #[trigger] ifds[q]);
                    assert(0 <= q < r + 1 && s0.end == ifd_end(d, ifds[q]));
                }
            } else {
                assert(s0.end == ifd_end(d, ifds[r]));
            }
        }
        along_the_entries(
            d,
            ifds,
            first,
            slots,
            offsets,
            ostarts,
            counts,
            cstarts,
            s0,
            r,
            0,
        );
        let s1 = structured::tiff_entries(d, d[0] == 77, ifds[r], half(d, ifds[r]), 0, s0);
        let s2 = structured::Directories { ifds: s1.ifds + 1, ..s1 };
        along_the_chain(d, ifds, first, slots, offsets, ostarts, counts, cstarts, s2, r + 1);
    }
}

proof fn along_the_strips(offsets: Seq<int>, counts: Seq<int>, i: int, end: int)
    requires
        0 <= i <= offsets.len(),
    ensures
        ({
            let n = structured::tiff_strips(offsets, counts, i, end);
            &&& n >= end
            &&& forall|j: int| i <= j < offsets.len() ==> n >= #[trigger] offsets[j] + counts[j]
            &&& n == end || exists|j: int|
                i <= j < offsets.len() && n == #[trigger] offsets[j] + counts[j]
        }),
    decreases offsets.len() - i,
{
    if i < offsets.len() {
        let next = bytes::larger(end, offsets[i] + counts[i]);
        along_the_strips(offsets, counts, i + 1, next);
        let n = structured::tiff_strips(offsets, counts, i, end);
        if n == next && next != end {
            assert(n == offsets[i] + counts[i]);
        }
    }
}

/// A TIFF whose directories, in either byte order, follow each other to the
/// last, with a width, a height, and strips of which each has an offset and a
/// size, is as long as everything that they point at: the directories
/// themselves, values that do not fit in their entries, and the strips of every
/// image. It is complete where all of that is there.
pub proof fn a_tiff_is_all_that_it_points_at(
    d: Seq<u8>,
    ifds: Seq<int>,
    first: Seq<int>,
    slots: Seq<int>,
    offsets: Seq<int>,
    ostarts: Seq<int>,
    counts: Seq<int>,
    cstarts: Seq<int>,
)
    requires
        begins(d),
        chained(d, ifds),
        listed(d, ifds, first, slots),
        sized(d, slots),
        // StripOffsets and StripByteCounts.
        gathered(d, slots, 273, offsets, ostarts),
        gathered(d, slots, 279, counts, cstarts),
        0 < offsets.len() == counts.len(),
        // ImageWidth and ImageLength.
        tagged(d, slots, slots.len() as int, 256) > 0,
        tagged(d, slots, slots.len() as int, 257) > 0,
    ensures
        ({
            let v = structured::tiff_verdict(d);
            &&& reaches(d, ifds, slots, offsets, counts, v.length)
            &&& v.status == (if v.length <= d.len() {
                Status::Valid
            } else {
                Status::Partial
            })
            &&& v.length_established
            &&& v.ran_out == (v.length > d.len())
            &&& v.refined_ext is None
            &&& v.status == Status::Valid ==> v.evidence == seq![
                (
                    "byte_order"@,
                    if d[0] == 77 {
                        "MM"@
                    } else {
                        "II"@
                    },
                ),
                ("width"@, text::dec(tagged(d, slots, slots.len() as int, 256))),
                ("height"@, text::dec(tagged(d, slots, slots.len() as int, 257))),
                ("ifds"@, text::dec(ifds.len() - 1)),
                ("entries"@, text::dec(slots.len() as int)),
                ("strips"@, text::dec(offsets.len() as int)),
            ]
        }),
{
    let s = structured::Directories {
        end: 8,
        own: 8,
        ifds: 0,
        entries: 0,
        width: 0,
        height: 0,
        strip_offsets: Seq::empty(),
        strip_counts: Seq::empty(),
        width_past: false,
        height_past: false,
        offsets_past: false,
        counts_past: false,
    };
    assert(s.strip_offsets =~= offsets.subrange(0, ostarts[0]));
    assert(s.strip_counts =~= counts.subrange(0, cstarts[0]));
    assert(read_so_far(d, ifds, slots, offsets, ostarts, counts, cstarts, s, 0, 0));
    along_the_chain(d, ifds, first, slots, offsets, ostarts, counts, cstarts, s, 0);
    let s1 = structured::tiff_chain(d, d[0] == 77, ifds[0], 0, s)->Ok_0;
    assert(s1.strip_offsets =~= offsets);
    assert(s1.strip_counts =~= counts);
    along_the_strips(offsets, counts, 0, s1.end);
    assert(nth_ifd(d, ifds, 0));
    assert(s1.end >= ifd_end(d, ifds[0]));
    let v = structured::tiff_verdict(d);
    assert(v == structured::tiff_concluded(d, d[0] == 77, s1));
    if v.status == Status::Valid {
        assert(v.evidence =~= seq![
            (
                "byte_order"@,
                if d[0] == 77 {
                    "MM"@
                } else {
                    "II"@
                },
            ),
            ("width"@, text::dec(tagged(d, slots, slots.len() as int, 256))),
            ("height"@, text::dec(tagged(d, slots, slots.len() as int, 257))),
            ("ifds"@, text::dec(ifds.len() - 1)),
            ("entries"@, text::dec(slots.len() as int)),
            ("strips"@, text::dec(offsets.len() as int)),
        ]);
    }
}

/// A TIFF in order in which no width or no height is given is none. One without
/// strips, or with more or fewer offsets than sizes, is not complete.
pub proof fn a_tiff_needs_its_image(
    d: Seq<u8>,
    ifds: Seq<int>,
    first: Seq<int>,
    slots: Seq<int>,
    offsets: Seq<int>,
    ostarts: Seq<int>,
    counts: Seq<int>,
    cstarts: Seq<int>,
)
    requires
        begins(d),
        chained(d, ifds),
        listed(d, ifds, first, slots),
        sized(d, slots),
        gathered(d, slots, 273, offsets, ostarts),
        gathered(d, slots, 279, counts, cstarts),
    ensures
        ({
            let v = structured::tiff_verdict(d);
            let width = tagged(d, slots, slots.len() as int, 256);
            let height = tagged(d, slots, slots.len() as int, 257);
            &&& width == 0 || height == 0 ==> v.status == Status::Rejected
            &&& width != 0 && height != 0 && (offsets.len() == 0 || offsets.len() != counts.len())
                ==> v.status == Status::Partial && !v.length_established
        }),
{
    let s = structured::Directories {
        end: 8,
        own: 8,
        ifds: 0,
        entries: 0,
        width: 0,
        height: 0,
        strip_offsets: Seq::empty(),
        strip_counts: Seq::empty(),
        width_past: false,
        height_past: false,
        offsets_past: false,
        counts_past: false,
    };
    assert(s.strip_offsets =~= offsets.subrange(0, ostarts[0]));
    assert(s.strip_counts =~= counts.subrange(0, cstarts[0]));
    assert(read_so_far(d, ifds, slots, offsets, ostarts, counts, cstarts, s, 0, 0));
    along_the_chain(d, ifds, first, slots, offsets, ostarts, counts, cstarts, s, 0);
    let s1 = structured::tiff_chain(d, d[0] == 77, ifds[0], 0, s)->Ok_0;
    assert(s1.strip_offsets =~= offsets);
    assert(s1.strip_counts =~= counts);
    assert(structured::tiff_verdict(d) == structured::tiff_concluded(d, d[0] == 77, s1));
}

proof fn entries_keep_count(
    d: Seq<u8>,
    big: bool,
    ifd: int,
    count: int,
    i: int,
    s: structured::Directories,
)
    ensures
        structured::tiff_entries(d, big, ifd, count, i, s).ifds == s.ifds,
    decreases count - i,
{
    if i < count {
        entries_keep_count(
            d,
            big,
            ifd,
            count,
            i + 1,
            structured::tiff_entry(d, big, ifd + 2 + 12 * i, s),
        );
    }
}

proof fn to_a_bad_directory(d: Seq<u8>, ifds: Seq<int>, s: structured::Directories, r: int)
    requires
        0 < ifds.len() <= 64,
        forall|q: int| 0 <= q < ifds.len() - 1 ==> #[trigger] nth_ifd(d, ifds, q),
        0 <= r < ifds.len(),
        s.ifds == r,
        ifds.last() > 0,
        ({
            let at = ifds.last();
            ||| at + 2 > d.len()
            ||| half(d, at) == 0
            ||| half(d, at) > 512
            ||| ifd_end(d, at) > d.len()
        }),
    ensures
        ({
            let at = ifds.last();
            let ends = at + 2 > d.len() || 1 <= half(d, at) <= 512;
            structured::tiff_chain(d, d[0] == 77, ifds[r], r, s) matches Err(v) && {
                &&& v.ran_out == ends
                &&& v.status == (if ifds.len() > 1 {
                    Status::Partial
                } else {
                    Status::Rejected
                })
            }
        }),
    decreases ifds.len() - r,
{
    if r < ifds.len() - 1 {
        assert(nth_ifd(d, ifds, r));
        let end = ifd_end(d, ifds[r]);
        let s0 = structured::Directories {
            end: bytes::larger(s.end, end),
            own: bytes::larger(s.own, end),
            ..s
        };
        entries_keep_count(d, d[0] == 77, ifds[r], half(d, ifds[r]), 0, s0);
        let s1 = structured::tiff_entries(d, d[0] == 77, ifds[r], half(d, ifds[r]), 0, s0);
        to_a_bad_directory(d, ifds, structured::Directories { ifds: s1.ifds + 1, ..s1 }, r + 1);
    }
}

/// A chain of directories that leads to one that is not all there, or that has no
/// entries or more than 512, makes no complete TIFF, and before any directory no
/// TIFF at all. Where the data ends, that is said.
pub proof fn a_bad_directory_ends_a_tiff(d: Seq<u8>, ifds: Seq<int>)
    requires
        begins(d),
        0 < ifds.len() <= 64,
        ifds[0] == word(d, 4),
        forall|q: int| 0 <= q < ifds.len() - 1 ==> #[trigger] nth_ifd(d, ifds, q),
        ifds.last() > 0,
        ({
            let at = ifds.last();
            ||| at + 2 > d.len()
            ||| half(d, at) == 0
            ||| half(d, at) > 512
            ||| ifd_end(d, at) > d.len()
        }),
    ensures
        ({
            let v = structured::tiff_verdict(d);
            let at = ifds.last();
            &&& v.ran_out == (at + 2 > d.len() || 1 <= half(d, at) <= 512)
            &&& v.status == (if ifds.len() > 1 {
                Status::Partial
            } else {
                Status::Rejected
            })
        }),
{
    let s = structured::Directories {
        end: 8,
        own: 8,
        ifds: 0,
        entries: 0,
        width: 0,
        height: 0,
        strip_offsets: Seq::empty(),
        strip_counts: Seq::empty(),
        width_past: false,
        height_past: false,
        offsets_past: false,
        counts_past: false,
    };
    to_a_bad_directory(d, ifds, s, 0);
}

/// What does not begin as a TIFF of either byte order is none.
pub proof fn only_a_tiff_is_carved(d: Seq<u8>)
    requires
        !begins(d),
    ensures
        structured::tiff_verdict(d).status == Status::Rejected,
{
}

} // verus!
