//! BMP, icon, GIF and Photoshop images.

use vstd::prelude::*;
use vstd::arithmetic::power2::pow2;
use crate::bytes;
use crate::text;
use super::super::{Status, bmp, gif, ico, png, structured};
use super::archives::states_its_size;
use super::{be16, be32, le16, le32, stands};

verus! {

broadcast use super::group_read;

// ---------------------------------------------------------------------------
// BMP
// ---------------------------------------------------------------------------

/// Four bytes as a signed number.
pub open spec fn signed32(d: Seq<u8>, at: int) -> int {
    if d[at + 3] >= 128 {
        le32(d, at) - 0x1_0000_0000
    } else {
        le32(d, at)
    }
}

/// Whether the oldest header, with 16-bit dimensions, is used.
pub open spec fn bmp_is_old(d: Seq<u8>) -> bool {
    le32(d, 14) == 12
}

pub open spec fn bmp_width(d: Seq<u8>) -> int {
    if bmp_is_old(d) {
        le16(d, 18)
    } else {
        signed32(d, 18)
    }
}

/// The height; negative where the rows are stored from the top down.
pub open spec fn bmp_height(d: Seq<u8>) -> int {
    if bmp_is_old(d) {
        le16(d, 20)
    } else {
        signed32(d, 22)
    }
}

pub open spec fn bmp_depth(d: Seq<u8>) -> int {
    if bmp_is_old(d) {
        le16(d, 24)
    } else {
        le16(d, 28)
    }
}

/// The compression method, which headers of 40 bytes and more have.
pub open spec fn bmp_compression(d: Seq<u8>) -> int {
    if le32(d, 14) >= 40 {
        le32(d, 30)
    } else {
        0
    }
}

pub open spec fn bmp_rows(d: Seq<u8>) -> int {
    if bmp_height(d) < 0 {
        -bmp_height(d)
    } else {
        bmp_height(d)
    }
}

/// Whether `n` is what one row takes: the least multiple of four bytes that
/// holds its pixels.
pub open spec fn bmp_row(d: Seq<u8>, n: int) -> bool {
    &&& n % 4 == 0
    &&& 8 * n >= bmp_width(d) * bmp_depth(d)
    &&& 8 * (n - 4) < bmp_width(d) * bmp_depth(d)
}

/// Whether the headers of a bitmap are in order: `BM`, reserved words that are
/// zero, one of the eight defined header sizes, pixels that begin behind the
/// headers and inside the file, one plane, a defined depth, and a width and a
/// height.
pub open spec fn bmp_in_order(d: Seq<u8>) -> bool {
    let size = le32(d, 14);
    &&& d[0] == 66 && d[1] == 77
    &&& le32(d, 6) == 0
    &&& size == 12 || size == 16 || size == 40 || size == 52 || size == 56 || size == 64 || size
        == 108 || size == 124
    &&& 14 + size <= le32(d, 10) <= le32(d, 2)
    &&& (if bmp_is_old(d) {
        le16(d, 22)
    } else {
        le16(d, 26)
    }) == 1
    &&& bmp_depth(d) == 1 || bmp_depth(d) == 4 || bmp_depth(d) == 8 || bmp_depth(d) == 16
        || bmp_depth(d) == 24 || bmp_depth(d) == 32
    &&& bmp_width(d) > 0
    &&& bmp_height(d) != 0
}

proof fn row_read(d: Seq<u8>, n: int)
    requires
        bmp_row(d, n),
    ensures
        (bmp_width(d) * bmp_depth(d) + 31) / 32 * 4 == n,
{
}

/// A bitmap is one exactly where its headers are in order and, unless it is
/// compressed, the file that they declare has room for its rows. It is as long
/// as its header says, and wider, taller or deeper than the room is no bitmap.
pub proof fn a_bitmap_is_as_long_as_it_says(d: Seq<u8>, row: int)
    requires
        d.len() >= 34,
        bmp_row(d, row),
    ensures
        ({
            let v = bmp::verdict(d);
            let ok = bmp_in_order(d) && (bmp_compression(d) == 0 ==> row * bmp_rows(d) <= le32(
                d,
                2,
            ) - le32(d, 10));
            &&& v.status != Status::Rejected <==> ok
            &&& ok ==> states_its_size(v, le32(d, 2), d.len() as int)
            &&& v.status == Status::Valid ==> v.evidence == seq![
                ("width"@, text::dec(bmp_width(d))),
                ("height"@, text::dec(bmp_rows(d))),
                ("bits_per_pixel"@, text::dec(bmp_depth(d))),
                ("compression"@, text::dec(bmp_compression(d))),
                (
                    "top_down"@,
                    if bmp_height(d) < 0 {
                        "true"@
                    } else {
                        "false"@
                    },
                ),
            ]
        }),
{
    row_read(d, row);
    let g = bmp::geometry(d, le32(d, 14));
    assert(g.width == bmp_width(d));
    assert(g.height == bmp_height(d));
    assert(g.bpp == bmp_depth(d));
    assert(g.compression == bmp_compression(d));
    assert(g.rows() == bmp_rows(d));
    assert(g.pixels() == bytes::capped(row * bmp_rows(d)));
}

// ---------------------------------------------------------------------------
// Icons
// ---------------------------------------------------------------------------

/// How many images an icon declares.
pub open spec fn ico_count(d: Seq<u8>) -> int {
    le16(d, 4)
}

/// Where the `i`-th image begins.
pub open spec fn ico_begins(d: Seq<u8>, i: int) -> int {
    le32(d, 6 + 16 * i + 12)
}

/// Where the `i`-th image ends.
pub open spec fn ico_ends(d: Seq<u8>, i: int) -> int {
    le32(d, 6 + 16 * i + 12) + le32(d, 6 + 16 * i + 8)
}

/// Whether the `i`-th image is a PNG.
pub open spec fn ico_is_png(d: Seq<u8>, i: int) -> bool {
    &&& ico_ends(d, i) - ico_begins(d, i) >= 8
    &&& stands(d, seq![137u8, 80, 78, 71, 13, 10, 26, 10], ico_begins(d, i))
}

/// Whether the `i`-th entry is in order: its reserved byte zero, in an icon one
/// plane at most of 32 bits at most, and an image behind the directory that is
/// all there and is a PNG or begins with a 40-byte bitmap header.
#[verifier::opaque]
pub open spec fn ico_entry(d: Seq<u8>, i: int) -> bool {
    let at = 6 + 16 * i;
    &&& d[at + 3] == 0
    &&& le16(d, 2) == 1 ==> le16(d, at + 4) <= 1 && le16(d, at + 6) <= 32
    &&& le32(d, at + 8) > 0
    &&& ico_begins(d, i) >= 6 + 16 * ico_count(d)
    &&& ico_ends(d, i) <= d.len()
    &&& ico_is_png(d, i) || (ico_ends(d, i) - ico_begins(d, i) >= 4 && le32(d, ico_begins(d, i))
        == 40)
}

/// Whether the directory is in order: an icon or a cursor of 1 to 64 images.
pub open spec fn ico_in_order(d: Seq<u8>) -> bool {
    &&& d.len() >= 6
    &&& le16(d, 0) == 0
    &&& le16(d, 2) == 1 || le16(d, 2) == 2
    &&& 1 <= ico_count(d) <= 64
    &&& 6 + 16 * ico_count(d) <= d.len()
}

/// How many of the entries from the `i`-th on are PNG images.
pub open spec fn ico_pngs(d: Seq<u8>, i: int) -> int
    decreases ico_count(d) - i,
{
    if i >= ico_count(d) {
        0
    } else {
        ico_pngs(d, i + 1) + (if ico_is_png(d, i) {
            1int
        } else {
            0int
        })
    }
}

proof fn ico_payload(d: Seq<u8>, i: int)
    requires
        ico_begins(d, i) <= ico_ends(d, i) <= d.len(),
    ensures
        ({
            let p = d.subrange(ico_begins(d, i), ico_ends(d, i));
            &&& ico::holds_png(p) == ico_is_png(d, i)
            &&& ico::holds_dib(p) == (p.len() >= 4 && le32(d, ico_begins(d, i)) == 40)
        }),
{
    let a = ico_begins(d, i);
    let b = ico_ends(d, i);
    let p = d.subrange(a, b);
    let mark = seq![137u8, 80, 78, 71, 13, 10, 26, 10];
    assert(png::signature() =~= mark);
    assert(ico::holds_png(p) == stands(p, mark, 0));
    if stands(p, mark, 0) {
        assert forall|j: int| 0 <= j < mark.len() implies d[a + j] == #[trigger] mark[j] by {
            assert(p[0 + j] == mark[j]);
        }
        assert(ico_is_png(d, i));
    }
    if ico_is_png(d, i) {
        assert forall|j: int| 0 <= j < mark.len() implies p[0 + j] == #[trigger] mark[j] by {
            assert(d[a + j] == mark[j]);
        }
    }
    if p.len() >= 4 {
        assert(p[0] == d[a] && p[1] == d[a + 1] && p[2] == d[a + 2] && p[3] == d[a + 3]);
    }
}

proof fn entry_read(d: Seq<u8>, i: int, s: ico::Images)
    requires
        ico_in_order(d),
        0 <= i < ico_count(d),
    ensures
        match ico::entry_at(d, le16(d, 2), ico_count(d), i, s) {
            Err(v) => !ico_entry(d, i) && v.status != Status::Valid,
            Ok(s1) => {
                &&& ico_entry(d, i)
                &&& s1.end == bytes::larger(s.end, ico_ends(d, i))
                &&& s1.pngs == s.pngs + (if ico_is_png(d, i) {
                    1int
                } else {
                    0int
                })
                &&& s1.dibs == s.dibs + (if ico_is_png(d, i) {
                    0int
                } else {
                    1int
                })
            },
        },
{
    reveal(ico_entry);
    if ico_ends(d, i) <= d.len() {
        ico_payload(d, i);
    }
}

#[verifier::rlimit(80)]
#[verifier::spinoff_prover]
proof fn along_the_entries(d: Seq<u8>, i: int, s: ico::Images)
    requires
        ico_in_order(d),
        0 <= i <= ico_count(d),
    ensures
        ({
            let v = ico::entries_from(d, le16(d, 2), ico_count(d), i, s);
            &&& v.status == Status::Valid <==> forall|j: int|
                i <= j < ico_count(d) ==> #[trigger] ico_entry(d, j)
            &&& v.status == Status::Valid ==> {
                &&& v.length >= s.end
                &&& forall|j: int| i <= j < ico_count(d) ==> v.length >= #[trigger] ico_ends(d, j)
                &&& v.length == s.end || exists|j: int|
                    i <= j < ico_count(d) && v.length == #[trigger] ico_ends(d, j)
                &&& v.refined_ext is None
                &&& v.evidence == seq![
                    ("images"@, text::dec(ico_count(d))),
                    (
                        "kind"@,
                        if le16(d, 2) == 1 {
                            "icon"@
                        } else {
                            "cursor"@
                        },
                    ),
                    ("png_images"@, text::dec(s.pngs + ico_pngs(d, i))),
                    (
                        "dib_images"@,
                        text::dec(s.dibs + ico_count(d) - i - ico_pngs(d, i)),
                    ),
                ]
            }
        }),
    decreases ico_count(d) - i,
{
    let v = ico::entries_from(d, le16(d, 2), ico_count(d), i, s);
    let n = ico_count(d);
    if i < n {
        entry_read(d, i, s);
        match ico::entry_at(d, le16(d, 2), n, i, s) {
            Err(w) => {
                assert(v == w);
                assert(!ico_entry(d, i));
            },
            Ok(s1) => {
                along_the_entries(d, i + 1, s1);
                assert(v == ico::entries_from(d, le16(d, 2), n, i + 1, s1));
                if v.status == Status::Valid {
                    assert forall|j: int| i <= j < n implies #[trigger] ico_entry(d, j) by {
                        if j > i {
                            assert(i + 1 <= j < n);
                        }
                    }
                    assert forall|j: int| i <= j < n implies v.length >= #[trigger] ico_ends(d, j) by {
                        if j > i {
                            assert(i + 1 <= j < n);
                        }
                    }
                    if v.length == s1.end {
                        if s1.end != s.end {
                            assert(v.length == ico_ends(d, i));
                        }
                    } else {
                        let j = choose|j: int| i + 1 <= j < n && v.length == #[trigger] ico_ends(d, j);
                        assert(i <= j < n && v.length == ico_ends(d, j));
                    }
                } else {
                    let j = choose|j: int| i + 1 <= j < n && !(#[trigger] ico_entry(d, j));
                    assert(i <= j < n && !ico_entry(d, j));
                }
            },
        }
    } else {
        assert(v.evidence =~= seq![
            ("images"@, text::dec(ico_count(d))),
            (
                "kind"@,
                if le16(d, 2) == 1 {
                    "icon"@
                } else {
                    "cursor"@
                },
            ),
            ("png_images"@, text::dec(s.pngs + ico_pngs(d, i))),
            ("dib_images"@, text::dec(s.dibs + ico_count(d) - i - ico_pngs(d, i))),
        ]);
    }
}

/// An icon or a cursor is complete exactly where its directory and every entry
/// in it are in order. It reaches to the end of the image that ends last.
pub proof fn an_icon_reaches_to_its_last_image(d: Seq<u8>)
    ensures
        ({
            let v = ico::verdict(d);
            &&& v.status == Status::Valid <==> ico_in_order(d) && forall|i: int|
                0 <= i < ico_count(d) ==> #[trigger] ico_entry(d, i)
            &&& v.status == Status::Valid ==> {
                &&& forall|i: int| 0 <= i < ico_count(d) ==> v.length >= #[trigger] ico_ends(d, i)
                &&& exists|i: int| 0 <= i < ico_count(d) && v.length == #[trigger] ico_ends(d, i)
                &&& v.refined_ext is None
                &&& v.evidence == seq![
                    ("images"@, text::dec(ico_count(d))),
                    (
                        "kind"@,
                        if le16(d, 2) == 1 {
                            "icon"@
                        } else {
                            "cursor"@
                        },
                    ),
                    ("png_images"@, text::dec(ico_pngs(d, 0))),
                    ("dib_images"@, text::dec(ico_count(d) - ico_pngs(d, 0))),
                ]
            }
        }),
{
    if ico_in_order(d) {
        along_the_entries(d, 0, ico::Images { end: 6 + 16 * ico_count(d), pngs: 0, dibs: 0 });
        if ico::verdict(d).status == Status::Valid {
            assert(ico_entry(d, 0));
            reveal(ico_entry);
            assert(ico_ends(d, 0) > 6 + 16 * ico_count(d));
        }
    }
}

// ---------------------------------------------------------------------------
// GIF
// ---------------------------------------------------------------------------

/// What a colour table takes: three bytes for each of 2 to 256 colours, where
/// the flags say that there is one.
pub open spec fn gif_table(flags: u8) -> int {
    if flags >= 128 {
        6 * pow2((flags % 8) as nat) as int
    } else {
        0
    }
}

/// Whether `cuts` are where the sub-blocks from `at` on begin, each with its
/// length before it and the last of length zero at the end of them.
pub open spec fn gif_chain(d: Seq<u8>, at: int, cuts: Seq<int>, next: int) -> bool {
    &&& cuts.len() > 0
    &&& cuts[0] == at
    &&& cuts.last() < d.len()
    &&& d[cuts.last()] == 0
    &&& next == cuts.last() + 1
    &&& forall|j: int| 0 <= j < cuts.len() - 1 ==> #[trigger] gif_link(d, cuts, j)
}

/// Whether the `j`-th sub-block leads to the next.
pub open spec fn gif_link(d: Seq<u8>, cuts: Seq<int>, j: int) -> bool {
    &&& 0 <= cuts[j] < d.len()
    &&& d[cuts[j]] > 0
    &&& cuts[j + 1] == cuts[j] + 1 + d[cuts[j]]
}

/// Whether sub-blocks stand from `at` to `next`.
pub open spec fn gif_sub_blocks(d: Seq<u8>, at: int, next: int) -> bool {
    0 <= at && exists|cuts: Seq<int>| #[trigger] gif_chain(d, at, cuts, next)
}

proof fn chain_stays_in(d: Seq<u8>, at: int, cuts: Seq<int>, next: int, j: int)
    requires
        gif_chain(d, at, cuts, next),
        0 <= at,
        0 <= j < cuts.len(),
    ensures
        0 <= cuts[j] <= cuts.last(),
    decreases cuts.len() - j,
{
    if j < cuts.len() - 1 {
        assert(gif_link(d, cuts, j));
        chain_stays_in(d, at, cuts, next, j + 1);
    } else if j > 0 {
        assert(gif_link(d, cuts, j - 1));
    }
}

proof fn along_a_chain(d: Seq<u8>, at: int, cuts: Seq<int>, next: int, j: int)
    requires
        gif_chain(d, at, cuts, next),
        0 <= at,
        0 <= j < cuts.len(),
    ensures
        gif::past_sub_blocks(d, cuts[j]) == Some(next),
    decreases cuts.len() - j,
{
    chain_stays_in(d, at, cuts, next, j);
    if j < cuts.len() - 1 {
        assert(gif_link(d, cuts, j));
        chain_stays_in(d, at, cuts, next, j + 1);
        along_a_chain(d, at, cuts, next, j + 1);
    }
}

/// Whether an image stands from `at` to `next`: a comma, a descriptor of nine
/// bytes, its colour table, a code size between 2 and 12, and its data.
pub open spec fn gif_image(d: Seq<u8>, at: int, next: int) -> bool {
    let data = at + 10 + gif_table(d[at + 9]);
    &&& at + 10 <= d.len()
    &&& d[at] == 44
    &&& data < d.len()
    &&& 2 <= d[data] <= 12
    &&& gif_sub_blocks(d, data + 1, next)
}

/// Whether an extension stands from `at` to `next`: an exclamation mark, a
/// label, and its data.
pub open spec fn gif_extension(d: Seq<u8>, at: int, next: int) -> bool {
    &&& at + 2 <= d.len()
    &&& d[at] == 33
    &&& gif_sub_blocks(d, at + 2, next)
}

/// Whether the `j`-th of these blocks is an image or an extension.
pub open spec fn gif_block(d: Seq<u8>, cuts: Seq<int>, j: int) -> bool {
    &&& 0 <= cuts[j] < d.len()
    &&& gif_image(d, cuts[j], cuts[j + 1]) || gif_extension(d, cuts[j], cuts[j + 1])
}

/// How many of the blocks before the `j`-th are images.
pub open spec fn gif_images(d: Seq<u8>, cuts: Seq<int>, j: int) -> int
    decreases j,
{
    if j <= 0 {
        0
    } else {
        gif_images(d, cuts, j - 1) + (if d[cuts[j - 1]] == 44 {
            1int
        } else {
            0int
        })
    }
}

proof fn along_the_blocks(d: Seq<u8>, cuts: Seq<int>, j: int)
    requires
        cuts.len() > 0,
        0 <= j < cuts.len(),
        0 <= cuts[j],
        forall|k: int| 0 <= k < cuts.len() - 1 ==> #[trigger] gif_block(d, cuts, k),
        cuts.last() < d.len(),
        d[cuts.last()] == 59,
    ensures
        ({
            let all = cuts.len() - 1;
            let v = gif::blocks_from(d, cuts[j], gif_images(d, cuts, j), j - gif_images(d, cuts, j));
            &&& gif_images(d, cuts, all) > 0 ==> {
                &&& v.status == Status::Valid
                &&& v.length == cuts.last() + 1
                &&& v.refined_ext is None
                &&& v.evidence == seq![
                    ("version"@, gif::version(d)),
                    ("width"@, text::dec(le16(d, 6))),
                    ("height"@, text::dec(le16(d, 8))),
                    ("images"@, text::dec(gif_images(d, cuts, all))),
                    ("extensions"@, text::dec(all - gif_images(d, cuts, all))),
                ]
            }
            &&& gif_images(d, cuts, all) == 0 ==> v.status == Status::Rejected
            &&& gif_images(d, cuts, all) >= gif_images(d, cuts, j) >= 0
        }),
    decreases cuts.len() - j,
{
    images_counted(d, cuts, j);
    if j < cuts.len() - 1 {
        let at = cuts[j];
        let next = cuts[j + 1];
        assert(gif_block(d, cuts, j));
        let from = if d[at] == 44 {
            at + 11 + gif_table(d[at + 9])
        } else {
            at + 2
        };
        let chain = choose|chain: Seq<int>| #[trigger] gif_chain(d, from, chain, next);
        table_read(d[at + 9]);
        along_a_chain(d, from, chain, next, 0);
        chain_stays_in(d, from, chain, next, 0);
        assert(gif_images(d, cuts, j + 1) == gif_images(d, cuts, j) + (if d[at] == 44 {
            1int
        } else {
            0int
        }));
        along_the_blocks(d, cuts, j + 1);
    } else {
        let all = cuts.len() - 1;
        let v = gif::blocks_from(d, cuts[j], gif_images(d, cuts, j), j - gif_images(d, cuts, j));
        if gif_images(d, cuts, all) > 0 {
            assert(v.evidence =~= seq![
                ("version"@, gif::version(d)),
                ("width"@, text::dec(le16(d, 6))),
                ("height"@, text::dec(le16(d, 8))),
                ("images"@, text::dec(gif_images(d, cuts, all))),
                ("extensions"@, text::dec(all - gif_images(d, cuts, all))),
            ]);
        }
    }
}

proof fn images_counted(d: Seq<u8>, cuts: Seq<int>, j: int)
    requires
        0 <= j,
    ensures
        0 <= gif_images(d, cuts, j) <= j,
    decreases j,
{
    if j > 0 {
        images_counted(d, cuts, j - 1);
    }
}

proof fn table_read(flags: u8)
    ensures
        gif::colour_table(flags) == gif_table(flags),
        0 <= gif_table(flags),
{
    vstd::arithmetic::power2::lemma_pow2_unfold((flags % 8 + 1) as nat);
}

/// A GIF of either version, with a screen, a chain of whole blocks behind its
/// colour table, an image among them and the trailer behind them, is complete.
/// It ends with the trailer.
pub proof fn a_gif_ends_with_its_trailer(d: Seq<u8>, cuts: Seq<int>)
    requires
        d.len() >= 13,
        stands(d, seq![71u8, 73, 70, 56, 55, 97], 0) || stands(
            d,
            seq![71u8, 73, 70, 56, 57, 97],
            0,
        ),
        le16(d, 6) > 0,
        le16(d, 8) > 0,
        cuts.len() > 0,
        cuts[0] == 13 + gif_table(d[10]),
        forall|k: int| 0 <= k < cuts.len() - 1 ==> #[trigger] gif_block(d, cuts, k),
        cuts.last() < d.len(),
        d[cuts.last()] == 59,
    ensures
        ({
            let v = gif::verdict(d);
            let all = cuts.len() - 1;
            &&& gif_images(d, cuts, all) > 0 ==> {
                &&& v.status == Status::Valid
                &&& v.length == cuts.last() + 1
                &&& v.refined_ext is None
                &&& v.evidence == seq![
                    (
                        "version"@,
                        if d[4] == 55 {
                            "87a"@
                        } else {
                            "89a"@
                        },
                    ),
                    ("width"@, text::dec(le16(d, 6))),
                    ("height"@, text::dec(le16(d, 8))),
                    ("images"@, text::dec(gif_images(d, cuts, all))),
                    ("extensions"@, text::dec(all - gif_images(d, cuts, all))),
                ]
            }
            &&& gif_images(d, cuts, all) == 0 ==> v.status == Status::Rejected
        }),
{
    let seven = seq![71u8, 73, 70, 56, 55, 97];
    let nine = seq![71u8, 73, 70, 56, 57, 97];
    if stands(d, seven, 0) {
        assert(d[0int + 0] == seven[0] && d[0int + 1] == seven[1] && d[0int + 2] == seven[2]
            && d[0int + 3] == seven[3] && d[0int + 4] == seven[4] && d[0int + 5] == seven[5]);
    } else {
        assert(d[0int + 0] == nine[0] && d[0int + 1] == nine[1] && d[0int + 2] == nine[2]
            && d[0int + 3] == nine[3] && d[0int + 4] == nine[4] && d[0int + 5] == nine[5]);
    }
    table_read(d[10]);
    if cuts.len() > 1 {
        assert(gif_block(d, cuts, 0));
    }
    along_the_blocks(d, cuts, 0);
}

proof fn past_whole_blocks(d: Seq<u8>, cuts: Seq<int>, j: int)
    requires
        0 <= j < cuts.len(),
        0 <= cuts[j],
        forall|k: int| 0 <= k < cuts.len() - 1 ==> #[trigger] gif_block(d, cuts, k),
    ensures
        ({
            let all = cuts.len() - 1;
            &&& 0 <= cuts.last()
            &&& all > j ==> cuts.last() <= d.len()
            &&& gif::blocks_from(d, cuts[j], gif_images(d, cuts, j), j - gif_images(d, cuts, j))
                == gif::blocks_from(
                d,
                cuts.last(),
                gif_images(d, cuts, all),
                all - gif_images(d, cuts, all),
            )
        }),
    decreases cuts.len() - j,
{
    if j < cuts.len() - 1 {
        let at = cuts[j];
        let next = cuts[j + 1];
        assert(gif_block(d, cuts, j));
        let from = if d[at] == 44 {
            at + 11 + gif_table(d[at + 9])
        } else {
            at + 2
        };
        let chain = choose|chain: Seq<int>| #[trigger] gif_chain(d, from, chain, next);
        table_read(d[at + 9]);
        along_a_chain(d, from, chain, next, 0);
        chain_stays_in(d, from, chain, next, 0);
        assert(gif_images(d, cuts, j + 1) == gif_images(d, cuts, j) + (if d[at] == 44 {
            1int
        } else {
            0int
        }));
        past_whole_blocks(d, cuts, j + 1);
    }
}

/// The places of the sub-blocks that a walk passes.
proof fn chain_walked(d: Seq<u8>, at: int) -> (cuts: Seq<int>)
    requires
        gif::past_sub_blocks(d, at) is Some,
    ensures
        0 <= at,
        gif_chain(d, at, cuts, gif::past_sub_blocks(d, at)->0),
    decreases d.len() - at,
{
    if d[at] == 0 {
        seq![at]
    } else {
        let rest = chain_walked(d, at + 1 + d[at]);
        let cuts = seq![at] + rest;
        assert forall|j: int| 0 <= j < cuts.len() - 1 implies #[trigger] gif_link(d, cuts, j) by {
            if j > 0 {
                assert(gif_link(d, rest, j - 1));
                assert(cuts[j] == rest[j - 1]);
                assert(cuts[j + 1] == rest[j]);
            } else {
                assert(cuts[1] == rest[0]);
            }
        }
        cuts
    }
}

/// Whether no chain of sub-blocks from `at` on ends before the data does.
pub open spec fn gif_runs_out(d: Seq<u8>, at: int) -> bool {
    forall|next: int| !#[trigger] gif_sub_blocks(d, at, next)
}

proof fn no_chain(d: Seq<u8>, at: int)
    requires
        gif_runs_out(d, at),
        0 <= at,
    ensures
        gif::past_sub_blocks(d, at) is None,
{
    if gif::past_sub_blocks(d, at) is Some {
        let cuts = chain_walked(d, at);
        assert(gif_sub_blocks(d, at, gif::past_sub_blocks(d, at)->0));
    }
}

/// A GIF that breaks off behind some whole blocks is not complete. It keeps what
/// goes before the place where it breaks, if an image is among it, and is no GIF
/// otherwise. Where the data ends, that is said; a block that is none, or an
/// impossible code size, is damage.
pub proof fn a_gif_cut_short_keeps_its_blocks(d: Seq<u8>, cuts: Seq<int>)
    requires
        d.len() >= 13,
        stands(d, seq![71u8, 73, 70, 56, 55, 97], 0) || stands(
            d,
            seq![71u8, 73, 70, 56, 57, 97],
            0,
        ),
        le16(d, 6) > 0,
        le16(d, 8) > 0,
        cuts.len() > 0,
        cuts[0] == 13 + gif_table(d[10]),
        cuts[0] <= d.len(),
        forall|k: int| 0 <= k < cuts.len() - 1 ==> #[trigger] gif_block(d, cuts, k),
    ensures
        ({
            let v = gif::verdict(d);
            let at = cuts.last();
            let images = gif_images(d, cuts, cuts.len() - 1);
            let code = at + 10 + gif_table(d[at + 9]);
            let kept = |n: int, length: int, ends: bool|
                {
                    &&& v.ran_out == ends
                    &&& n > 0 ==> v.status == Status::Partial && v.length == length
                    &&& n == 0 ==> v.status == Status::Rejected
                };
            &&& at >= d.len() ==> kept(images, at, true)
            &&& at < d.len() && d[at] != 44 && d[at] != 33 && d[at] != 59 ==> kept(
                images,
                at,
                false,
            )
            &&& at + 1 == d.len() && d[at] == 33 ==> kept(images, at + 1, true)
            &&& at + 1 < d.len() && d[at] == 33 && gif_runs_out(d, at + 2) ==> kept(
                images,
                at + 2,
                true,
            )
            &&& at < d.len() && d[at] == 44 ==> {
                &&& at + 10 > d.len() ==> kept(images, at + 1, true)
                &&& at + 10 <= d.len() && code == d.len() ==> kept(images, code, true)
                &&& at + 10 <= d.len() && code > d.len() ==> kept(images, at, true)
                &&& at + 10 <= d.len() && code < d.len() && !(2 <= d[code] <= 12) ==> kept(
                    images,
                    code,
                    false,
                )
                &&& at + 10 <= d.len() && code < d.len() && 2 <= d[code] <= 12 && gif_runs_out(
                    d,
                    code + 1,
                ) ==> kept(images + 1, code + 1, true)
            }
        }),
{
    let seven = seq![71u8, 73, 70, 56, 55, 97];
    let nine = seq![71u8, 73, 70, 56, 57, 97];
    if stands(d, seven, 0) {
        assert(d[0int + 0] == seven[0] && d[0int + 1] == seven[1] && d[0int + 2] == seven[2]
            && d[0int + 3] == seven[3] && d[0int + 4] == seven[4] && d[0int + 5] == seven[5]);
    } else {
        assert(d[0int + 0] == nine[0] && d[0int + 1] == nine[1] && d[0int + 2] == nine[2]
            && d[0int + 3] == nine[3] && d[0int + 4] == nine[4] && d[0int + 5] == nine[5]);
    }
    table_read(d[10]);
    past_whole_blocks(d, cuts, 0);
    images_counted(d, cuts, cuts.len() - 1);
    let at = cuts.last();
    table_read(d[at + 9]);
    if at + 1 < d.len() && d[at] == 33 && gif_runs_out(d, at + 2) {
        no_chain(d, at + 2);
    }
    let code = at + 10 + gif_table(d[at + 9]);
    if at + 10 <= d.len() && d[at] == 44 && gif_runs_out(d, code + 1) {
        no_chain(d, code + 1);
    }
}

/// What is no GIF of either version, or has an empty screen, is not carved as
/// one.
pub proof fn only_a_gif_is_carved(d: Seq<u8>)
    requires
        d.len() >= 13,
        !(stands(d, seq![71u8, 73, 70, 56, 55, 97], 0) || stands(
            d,
            seq![71u8, 73, 70, 56, 57, 97],
            0,
        )) || le16(d, 6) == 0 || le16(d, 8) == 0,
    ensures
        gif::verdict(d).status == Status::Rejected,
{
    let seven = seq![71u8, 73, 70, 56, 55, 97];
    let nine = seq![71u8, 73, 70, 56, 57, 97];
    if gif::verdict(d).status != Status::Rejected {
        if d[4] == 55 {
            assert(stands(d, seven, 0));
        } else {
            assert(stands(d, nine, 0));
        }
    }
}

// ---------------------------------------------------------------------------
// Photoshop
// ---------------------------------------------------------------------------

/// Where the colour mode data, the image resources and the layers end, each of
/// which has its length in four bytes before it.
pub open spec fn psd_image_at(d: Seq<u8>) -> int {
    let a = 26 + 4 + be32(d, 26);
    let b = a + 4 + be32(d, a);
    b + 4 + be32(d, b)
}

/// Whether those three sections are all there.
pub open spec fn psd_sections_fit(d: Seq<u8>) -> bool {
    let a = 26 + 4 + be32(d, 26);
    let b = a + 4 + be32(d, a);
    a + 4 <= d.len() && b + 4 <= d.len() && psd_image_at(d) + 2 <= d.len()
}

/// Whether the header of a Photoshop file is in order: `8BPS`, version 1 or 2,
/// reserved bytes that are zero, 1 to 56 channels, a width and a height, 1, 8,
/// 16 or 32 bits per channel, and a colour mode up to 15.
pub open spec fn psd_in_order(d: Seq<u8>) -> bool {
    &&& d.len() >= 34
    &&& stands(d, seq![56u8, 66, 80, 83], 0)
    &&& 1 <= be16(d, 4) <= 2
    &&& d[6] == 0 && d[7] == 0 && d[8] == 0 && d[9] == 0 && d[10] == 0 && d[11] == 0
    &&& 1 <= be16(d, 12) <= 56
    &&& be32(d, 14) > 0
    &&& be32(d, 18) > 0
    &&& be16(d, 22) == 1 || be16(d, 22) == 8 || be16(d, 22) == 16 || be16(d, 22) == 32
    &&& be16(d, 24) <= 15
}

/// The bytes that one channel of one pixel takes, a single bit being stored in
/// one.
pub open spec fn psd_sample(d: Seq<u8>) -> int {
    if be16(d, 22) == 16 {
        2
    } else if be16(d, 22) == 32 {
        4
    } else {
        1
    }
}

/// A Photoshop file whose header is in order, whose sections are all there and
/// whose image is stored as it is, is as long as its sections and its image;
/// where the image is compressed it is carved as its sections.
pub proof fn a_photoshop_file_is_its_sections_and_its_image(d: Seq<u8>)
    requires
        d.len() < u64::MAX,
    ensures
        ({
            let v = structured::psd_verdict(d);
            let at = psd_image_at(d);
            let total = at + 2 + be32(d, 18) * be32(d, 14) * be16(d, 12) * psd_sample(d);
            &&& v.status != Status::Rejected <==> psd_in_order(d)
            &&& psd_in_order(d) && psd_sections_fit(d) && be16(d, at) == 0 && total <= d.len()
                <==> v.status == Status::Valid
            &&& v.status == Status::Valid ==> {
                &&& v.length == total
                &&& v.refined_ext is None
                &&& v.evidence == seq![
                    ("width"@, text::dec(be32(d, 18))),
                    ("height"@, text::dec(be32(d, 14))),
                    ("channels"@, text::dec(be16(d, 12))),
                    ("depth"@, text::dec(be16(d, 22))),
                    ("compression"@, text::dec(0)),
                ]
            }
            &&& psd_in_order(d) && psd_sections_fit(d) && be16(d, at) != 0 ==> v.length == at + 2
                && !v.length_established && !v.ran_out
        }),
{
    assert(structured::psd_head() =~= seq![56u8, 66, 80, 83]);
    reveal_with_fuel(structured::psd_sections, 4);
    if psd_in_order(d) {
        assert(!(exists|i: int| 6 <= i < 12 && d[i] != 0));
        assert((be16(d, 22) + 7) / 8 == psd_sample(d));
        let n = be32(d, 18) * be32(d, 14) * be16(d, 12) * psd_sample(d);
        assert(n >= 0) by (nonlinear_arith)
            requires
                n == be32(d, 18) * be32(d, 14) * be16(d, 12) * psd_sample(d),
                be32(d, 18) > 0,
                be32(d, 14) > 0,
                be16(d, 12) > 0,
                psd_sample(d) > 0,
        ;
    }
}

} // verus!
