//! PNG images.

use vstd::prelude::*;
use crate::crc32;
use crate::text;
use super::super::{Status, png};
use super::{be32, stands};

verus! {

broadcast use super::group_read;

/// Whether a byte is a letter of either case.
pub open spec fn is_letter(b: u8) -> bool {
    65 <= b <= 90 || 97 <= b <= 122
}

/// Whether the `j`-th chunk is one: a length, a type of four letters, as many
/// bytes, and four for its checksum.
pub open spec fn nth_chunk(d: Seq<u8>, cuts: Seq<int>, j: int) -> bool {
    let at = cuts[j];
    &&& 8 <= at
    &&& be32(d, at) < 0x8000_0000
    &&& cuts[j + 1] == at + 12 + be32(d, at)
    &&& cuts[j + 1] <= d.len()
    &&& is_letter(d[at + 4]) && is_letter(d[at + 5]) && is_letter(d[at + 6]) && is_letter(d[at + 7])
}

/// Whether the `j`-th chunk is a header: `IHDR`.
pub open spec fn is_head(d: Seq<u8>, cuts: Seq<int>, j: int) -> bool {
    stands(d, seq![73u8, 72, 68, 82], cuts[j] + 4)
}

/// Whether the `j`-th chunk is image data: `IDAT`.
pub open spec fn is_data(d: Seq<u8>, cuts: Seq<int>, j: int) -> bool {
    stands(d, seq![73u8, 68, 65, 84], cuts[j] + 4)
}

/// Whether the `j`-th chunk is the end: `IEND`.
pub open spec fn is_stop(d: Seq<u8>, cuts: Seq<int>, j: int) -> bool {
    stands(d, seq![73u8, 69, 78, 68], cuts[j] + 4)
}

/// Whether the checksum of the `j`-th chunk is that of its type and its bytes.
pub open spec fn is_intact(d: Seq<u8>, cuts: Seq<int>, j: int) -> bool {
    be32(d, cuts[j + 1] - 4) == crc32::checksum(d.subrange(cuts[j] + 4, cuts[j + 1] - 4))
}

/// Whether the first chunk is a header in order: a width and a height, a defined
/// depth and colour type, and the one method of compression and of filtering.
pub open spec fn header_in_order(d: Seq<u8>) -> bool {
    &&& be32(d, 8) == 13
    &&& stands(d, seq![73u8, 72, 68, 82], 12)
    &&& be32(d, 16) > 0
    &&& be32(d, 20) > 0
    &&& d[24] == 1 || d[24] == 2 || d[24] == 4 || d[24] == 8 || d[24] == 16
    &&& d[25] == 0 || d[25] == 2 || d[25] == 3 || d[25] == 4 || d[25] == 6
    &&& d[26] == 0
    &&& d[27] == 0
    &&& d[28] <= 1
}

/// Whether `cuts` are where the chunks of a PNG begin, and where the last of
/// them, the one end chunk, ends.
pub open spec fn chunks_chain(d: Seq<u8>, cuts: Seq<int>) -> bool {
    &&& cuts.len() > 1
    &&& cuts[0] == 8
    &&& forall|j: int| 0 <= j < cuts.len() - 1 ==> #[trigger] nth_chunk(d, cuts, j)
    &&& forall|j: int|
        0 <= j < cuts.len() - 1 ==> (#[trigger] is_stop(d, cuts, j) <==> j
            == cuts.len() - 2)
}

/// Whether one of the first `n` chunks holds image data.
pub open spec fn has_data(d: Seq<u8>, cuts: Seq<int>, n: int) -> bool {
    exists|j: int| 0 <= j < n && #[trigger] is_data(d, cuts, j)
}

/// How many of the first `n` chunks are not intact.
pub open spec fn damaged(d: Seq<u8>, cuts: Seq<int>, n: int) -> int
    decreases n,
{
    if n <= 0 {
        0
    } else {
        damaged(d, cuts, n - 1) + (if is_intact(d, cuts, n - 1) {
            0int
        } else {
            1int
        })
    }
}

proof fn damage_counts(d: Seq<u8>, cuts: Seq<int>, n: int)
    requires
        0 <= n,
    ensures
        0 <= damaged(d, cuts, n) <= n,
        damaged(d, cuts, n) == 0 <==> forall|j: int| 0 <= j < n ==> #[trigger] is_intact(d, cuts, j),
    decreases n,
{
    if n > 0 {
        damage_counts(d, cuts, n - 1);
    }
}

proof fn typed(d: Seq<u8>, at: int, ty: Seq<u8>)
    requires
        0 <= at,
        at + 8 <= d.len(),
        ty.len() == 4,
    ensures
        png::type_at(d, at) == ty <==> stands(d, ty, at + 4),
{
    let got = png::type_at(d, at);
    if stands(d, ty, at + 4) {
        assert(got =~= ty);
    }
    if got == ty {
        assert forall|i: int| 0 <= i < ty.len() implies d[at + 4 + i] == #[trigger] ty[i] by {
            assert(got[i] == d[at + 4 + i]);
        }
    }
}

proof fn along_the_chunks(d: Seq<u8>, cuts: Seq<int>, s: png::Progress, j: int)
    requires
        header_in_order(d),
        chunks_chain(d, cuts),
        forall|k: int|
            0 <= k < cuts.len() - 1 && #[trigger] is_head(d, cuts, k)
                ==> is_intact(d, cuts, k),
        0 <= j < cuts.len() - 1,
        s.at == cuts[j],
        s.chunks == j,
        s.crc_errors == damaged(d, cuts, j),
        s.saw_idat == has_data(d, cuts, j),
    ensures
        ({
            let n = cuts.len() - 1;
            let v = png::chunks_from(d, s);
            &&& !has_data(d, cuts, n) ==> v.status == Status::Rejected
            &&& has_data(d, cuts, n) ==> v.length == cuts.last() && !v.ran_out && v.refined_ext is None
            &&& has_data(d, cuts, n) && damaged(d, cuts, n) > 0 ==> v.status == Status::Partial
                && v.evidence.len() > 3 && v.evidence[3] == ("crc_errors"@, text::dec(damaged(d, cuts, n)))
            &&& has_data(d, cuts, n) && damaged(d, cuts, n) == 0 ==> {
                &&& v.status == Status::Valid
                &&& v.evidence == seq![
                    ("width"@, text::dec(be32(d, 16))),
                    ("height"@, text::dec(be32(d, 20))),
                    ("bit_depth"@, text::dec(d[24] as int)),
                    ("colour_type"@, text::dec(d[25] as int)),
                    ("chunks"@, text::dec(n)),
                    ("crc_errors"@, text::dec(0)),
                ]
            }
        }),
    decreases cuts.len() - j,
{
    let n = cuts.len() - 1;
    let at = cuts[j];
    let len = be32(d, at);
    assert(nth_chunk(d, cuts, j));
    let ty = png::type_at(d, at);
    assert(ty[0] == d[at + 4] && ty[1] == d[at + 5] && ty[2] == d[at + 6] && ty[3] == d[at + 7]);
    let head = seq![73u8, 72, 68, 82];
    let data = seq![73u8, 68, 65, 84];
    let stop = seq![73u8, 69, 78, 68];
    assert(png::ihdr() =~= head);
    assert(png::idat() =~= data);
    assert(png::iend() =~= stop);
    typed(d, at, head);
    typed(d, at, data);
    typed(d, at, stop);
    typed(d, 8, head);
    assert(is_head(d, cuts, j) == stands(d, head, at + 4));
    assert(is_data(d, cuts, j) == stands(d, data, at + 4));
    assert(is_stop(d, cuts, j) == stands(d, stop, at + 4));
    assert(at + 8 + len == cuts[j + 1] - 4);
    assert(png::crc_holds(d, at, len) == is_intact(d, cuts, j));
    assert(png::header_wrong(d) is None);
    assert(damaged(d, cuts, j + 1) == damaged(d, cuts, j) + (if is_intact(d, cuts, j) {
        0int
    } else {
        1int
    }));
    let held = is_intact(d, cuts, j);
    let first_bad = !held && s.crc_errors == 0;
    let next = png::Progress {
        at: cuts[j + 1],
        saw_idat: s.saw_idat || ty == data,
        chunks: s.chunks + 1,
        crc_errors: damaged(d, cuts, j + 1),
        bad: if first_bad {
            text::ascii(ty) + "@"@ + text::dec(s.at)
        } else {
            s.bad
        },
        bad_at: if first_bad {
            s.at
        } else {
            s.bad_at
        },
    };
    assert(next.saw_idat == has_data(d, cuts, j + 1)) by {
        if s.saw_idat {
            let k = choose|k: int| 0 <= k < j && #[trigger] is_data(d, cuts, k);
            assert(0 <= k < j + 1 && is_data(d, cuts, k));
        }
    }
    damage_counts(d, cuts, j + 1);
    if j == cuts.len() - 2 {
        let v = png::chunks_from(d, s);
        assert(v == png::concluded(d, next));
        if has_data(d, cuts, n) && damaged(d, cuts, n) == 0 {
            assert(v.evidence =~= seq![
                ("width"@, text::dec(be32(d, 16))),
                ("height"@, text::dec(be32(d, 20))),
                ("bit_depth"@, text::dec(d[24] as int)),
                ("colour_type"@, text::dec(d[25] as int)),
                ("chunks"@, text::dec(n)),
                ("crc_errors"@, text::dec(0)),
            ]);
        }
    } else {
        assert(png::chunks_from(d, s) == png::chunks_from(d, next));
        along_the_chunks(d, cuts, next, j + 1);
    }
}

/// A PNG whose chunks follow each other from its signature to its end chunk,
/// with a header first and image data among them, ends with that end chunk. It
/// is complete exactly where every chunk's checksum is right; where some are not
/// it is damaged, and the evidence says how many.
pub proof fn a_png_ends_with_its_end_chunk(d: Seq<u8>, cuts: Seq<int>)
    requires
        stands(d, seq![137u8, 80, 78, 71, 13, 10, 26, 10], 0),
        header_in_order(d),
        chunks_chain(d, cuts),
        forall|k: int|
            0 <= k < cuts.len() - 1 && #[trigger] is_head(d, cuts, k)
                ==> is_intact(d, cuts, k),
    ensures
        ({
            let v = png::verdict(d);
            let n = cuts.len() - 1;
            &&& !has_data(d, cuts, n) ==> v.status == Status::Rejected
            &&& has_data(d, cuts, n) ==> {
                &&& v.length == cuts.last()
                &&& !v.ran_out
                &&& v.refined_ext is None
                &&& v.status == (if forall|j: int|
                    0 <= j < n ==> #[trigger] is_intact(d, cuts, j) {
                    Status::Valid
                } else {
                    Status::Partial
                })
            }
            &&& v.status == Status::Valid ==> v.evidence == seq![
                ("width"@, text::dec(be32(d, 16))),
                ("height"@, text::dec(be32(d, 20))),
                ("bit_depth"@, text::dec(d[24] as int)),
                ("colour_type"@, text::dec(d[25] as int)),
                ("chunks"@, text::dec(n)),
                ("crc_errors"@, text::dec(0)),
            ]
            &&& v.status == Status::Partial ==> v.evidence.contains(
                ("crc_errors"@, text::dec(damaged(d, cuts, n))),
            )
        }),
{
    assert(png::signature() =~= seq![137u8, 80, 78, 71, 13, 10, 26, 10]);
    damage_counts(d, cuts, cuts.len() - 1);
    let s = png::Progress {
        at: 8,
        saw_idat: false,
        chunks: 0,
        crc_errors: 0,
        bad: Seq::empty(),
        bad_at: 0,
    };
    along_the_chunks(d, cuts, s, 0);
    let v = png::verdict(d);
    assert(v == png::chunks_from(d, s));
    if v.status == Status::Partial {
        assert(has_data(d, cuts, cuts.len() - 1));
        assert(damaged(d, cuts, cuts.len() - 1) > 0);
        assert(v.evidence.contains(v.evidence[3]));
    }
}

/// Whether `cuts` are where the first chunks of a PNG begin, none of them the
/// end, and where the last of them ends.
pub open spec fn chunks_begin(d: Seq<u8>, cuts: Seq<int>) -> bool {
    &&& cuts.len() > 0
    &&& cuts[0] == 8
    &&& forall|j: int|
        0 <= j < cuts.len() - 1 ==> #[trigger] nth_chunk(d, cuts, j) && !is_stop(d, cuts, j)
    &&& forall|j: int|
        0 <= j < cuts.len() - 1 && #[trigger] is_head(d, cuts, j) ==> is_intact(d, cuts, j)
}

proof fn past_whole_chunks(d: Seq<u8>, cuts: Seq<int>, s: png::Progress, j: int) -> (e:
    png::Progress)
    requires
        cuts.len() > 1 ==> header_in_order(d),
        chunks_begin(d, cuts),
        0 <= j < cuts.len(),
        s.at == cuts[j],
        s.chunks == j,
        s.saw_idat == has_data(d, cuts, j),
    ensures
        e.at == cuts.last(),
        e.chunks == cuts.len() - 1,
        e.saw_idat == has_data(d, cuts, cuts.len() - 1),
        png::chunks_from(d, s) == png::chunks_from(d, e),
    decreases cuts.len() - j,
{
    if j == cuts.len() - 1 {
        s
    } else {
        let at = cuts[j];
        let len = be32(d, at);
        assert(nth_chunk(d, cuts, j));
        let ty = png::type_at(d, at);
        assert(ty[0] == d[at + 4] && ty[1] == d[at + 5] && ty[2] == d[at + 6] && ty[3] == d[at
            + 7]);
        let head = seq![73u8, 72, 68, 82];
        let data = seq![73u8, 68, 65, 84];
        let stop = seq![73u8, 69, 78, 68];
        assert(png::ihdr() =~= head);
        assert(png::idat() =~= data);
        assert(png::iend() =~= stop);
        typed(d, at, head);
        typed(d, at, data);
        typed(d, at, stop);
        typed(d, 8, head);
        assert(is_head(d, cuts, j) == stands(d, head, at + 4));
        assert(is_data(d, cuts, j) == stands(d, data, at + 4));
        assert(is_stop(d, cuts, j) == stands(d, stop, at + 4));
        assert(at + 8 + len == cuts[j + 1] - 4);
        assert(png::crc_holds(d, at, len) == is_intact(d, cuts, j));
        assert(png::header_wrong(d) is None);
        let held = is_intact(d, cuts, j);
        let first_bad = !held && s.crc_errors == 0;
        let next = png::Progress {
            at: cuts[j + 1],
            saw_idat: s.saw_idat || ty == data,
            chunks: s.chunks + 1,
            crc_errors: if held {
                s.crc_errors
            } else {
                s.crc_errors + 1
            },
            bad: if first_bad {
                text::ascii(ty) + "@"@ + text::dec(s.at)
            } else {
                s.bad
            },
            bad_at: if first_bad {
                s.at
            } else {
                s.bad_at
            },
        };
        assert(next.saw_idat == has_data(d, cuts, j + 1)) by {
            if s.saw_idat {
                let k = choose|k: int| 0 <= k < j && #[trigger] is_data(d, cuts, k);
                assert(0 <= k < j + 1 && is_data(d, cuts, k));
            }
        }
        assert(png::chunks_from(d, s) == png::chunks_from(d, next));
        past_whole_chunks(d, cuts, next, j + 1)
    }
}

/// A PNG that breaks off keeps its whole chunks, where image data is among them;
/// before any image data it is no PNG. Where the data ends in the middle of a
/// chunk that could go on, that is said; a chunk with an impossible length or
/// type is damage.
pub proof fn a_png_cut_short_keeps_its_whole_chunks(d: Seq<u8>, cuts: Seq<int>)
    requires
        stands(d, seq![137u8, 80, 78, 71, 13, 10, 26, 10], 0),
        cuts.len() > 1 ==> header_in_order(d),
        chunks_begin(d, cuts),
    ensures
        ({
            let v = png::verdict(d);
            let at = cuts.last();
            let long = d.len() >= at + 4 && be32(d, at) >= 0x8000_0000;
            let odd = d.len() >= at + 8 && !(is_letter(d[at + 4]) && is_letter(d[at + 5])
                && is_letter(d[at + 6]) && is_letter(d[at + 7]));
            let ends = d.len() < at + 8 || d.len() < at + 12 + be32(d, at);
            long || odd || ends ==> {
                &&& v.ran_out == (!long && !odd)
                &&& has_data(d, cuts, cuts.len() - 1) ==> v.status == Status::Partial && v.length
                    == at
                &&& !has_data(d, cuts, cuts.len() - 1) ==> v.status == Status::Rejected
            }
        }),
{
    assert(png::signature() =~= seq![137u8, 80, 78, 71, 13, 10, 26, 10]);
    let s = png::Progress {
        at: 8,
        saw_idat: false,
        chunks: 0,
        crc_errors: 0,
        bad: Seq::empty(),
        bad_at: 0,
    };
    let e = past_whole_chunks(d, cuts, s, 0);
    let at = cuts.last();
    if cuts.len() > 1 {
        assert(nth_chunk(d, cuts, cuts.len() - 2));
    }
    assert(8 <= at <= d.len());
    if d.len() >= at + 8 {
        let ty = png::type_at(d, at);
        assert(ty[0] == d[at + 4] && ty[1] == d[at + 5] && ty[2] == d[at + 6] && ty[3] == d[at
            + 7]);
    }
}

/// What has no header in order, or whose header's checksum is wrong, is no PNG.
pub proof fn a_png_needs_its_header(d: Seq<u8>)
    requires
        d.len() >= 33,
        be32(d, 8) == 13 ==> d.len() >= 33,
        !stands(d, seq![137u8, 80, 78, 71, 13, 10, 26, 10], 0) || be32(d, 8) == 13 && (
        !header_in_order(d) || be32(d, 29) != crc32::checksum(d.subrange(12, 29))),
    ensures
        png::verdict(d).status == Status::Rejected,
{
    assert(png::signature() =~= seq![137u8, 80, 78, 71, 13, 10, 26, 10]);
    let head = seq![73u8, 72, 68, 82];
    assert(png::ihdr() =~= head);
    typed(d, 8, head);
}

} // verus!
