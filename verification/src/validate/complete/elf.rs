//! ELF executables, libraries and objects.

use vstd::prelude::*;
use crate::bytes;
use crate::text;
use super::super::{Status, structured};
use super::archives::states_its_size;
use super::{be16, be32, be64, le16, le32, le64, stands};

verus! {

broadcast use super::group_read;

/// Two bytes in the order that the file states.
pub open spec fn half(d: Seq<u8>, at: int) -> int {
    if d[5] == 2 {
        be16(d, at)
    } else {
        le16(d, at)
    }
}

/// An address or a size: eight bytes in a 64-bit file, four in a 32-bit one.
pub open spec fn word(d: Seq<u8>, at: int) -> int {
    if d[4] == 2 {
        if d[5] == 2 {
            be64(d, at)
        } else {
            le64(d, at)
        }
    } else {
        four(d, at)
    }
}

/// Four bytes in the order that the file states.
pub open spec fn four(d: Seq<u8>, at: int) -> int {
    if d[5] == 2 {
        be32(d, at)
    } else {
        le32(d, at)
    }
}

/// Whether the file is a 64-bit one.
pub open spec fn is_64(d: Seq<u8>) -> bool {
    d[4] == 2
}

/// Where the program headers are, the size of one, and how many there are.
pub open spec fn segments(d: Seq<u8>) -> (int, int, int) {
    if is_64(d) {
        (word(d, 32), half(d, 54), half(d, 56))
    } else {
        (word(d, 28), half(d, 42), half(d, 44))
    }
}

/// Where the section headers are, the size of one, and how many there are.
pub open spec fn sections(d: Seq<u8>) -> (int, int, int) {
    if is_64(d) {
        (word(d, 40), half(d, 58), half(d, 60))
    } else {
        (word(d, 32), half(d, 46), half(d, 48))
    }
}

/// How long the file header is.
pub open spec fn header_len(d: Seq<u8>) -> int {
    if is_64(d) {
        64
    } else {
        52
    }
}

/// Where the `i`-th segment ends: its offset and its size in the file.
pub open spec fn segment_end(d: Seq<u8>, i: int) -> int {
    let at = segments(d).0 + i * segments(d).1;
    if is_64(d) {
        word(d, at + 8) + word(d, at + 32)
    } else {
        word(d, at + 4) + word(d, at + 16)
    }
}

/// Whether the `i`-th section has bytes in the file: all have but those of type
/// 8.
pub open spec fn has_bytes(d: Seq<u8>, i: int) -> bool {
    four(d, sections(d).0 + i * sections(d).1 + 4) != 8
}

/// Where the `i`-th section ends.
pub open spec fn section_end(d: Seq<u8>, i: int) -> int {
    let at = sections(d).0 + i * sections(d).1;
    if is_64(d) {
        word(d, at + 24) + word(d, at + 32)
    } else {
        word(d, at + 16) + word(d, at + 20)
    }
}

/// Whether the identification is in order: `7F` and `ELF`, 32 or 64 bits, either
/// byte order, version 1, and a defined type or one reserved for a system.
pub open spec fn identified(d: Seq<u8>) -> bool {
    &&& stands(d, seq![127u8, 69, 76, 70], 0)
    &&& d[4] == 1 || d[4] == 2
    &&& d[5] == 1 || d[5] == 2
    &&& d[6] == 1
    &&& 1 <= half(d, 16) <= 4 || half(d, 16) >= 0xFE00
}

/// Whether the headers of the tables have room for what they hold.
pub open spec fn entries_have_room(d: Seq<u8>) -> bool {
    &&& segments(d).2 > 0 ==> segments(d).1 >= (if is_64(d) {
        56int
    } else {
        32int
    })
    &&& sections(d).2 > 0 ==> sections(d).1 >= (if is_64(d) {
        64int
    } else {
        40int
    })
}

/// Whether `n` is as far as an ELF file reaches: to the end of its header, its
/// tables, its segments and its sections, whichever is last. A table is followed
/// for 256 segments and 512 sections.
pub open spec fn reaches(d: Seq<u8>, n: int) -> bool {
    let (ph, phs, phn) = segments(d);
    let (sh, shs, shn) = sections(d);
    &&& n >= header_len(d)
    &&& phn > 0 ==> n >= ph + phn * phs
    &&& shn > 0 ==> n >= sh + shn * shs
    &&& forall|i: int| 0 <= i < phn && i < 256 ==> n >= #[trigger] segment_end(d, i)
    &&& forall|i: int|
        0 <= i < shn && i < 512 && #[trigger] has_bytes(d, i) ==> n >= section_end(d, i)
    &&& {
        ||| n == header_len(d)
        ||| phn > 0 && n == ph + phn * phs
        ||| shn > 0 && n == sh + shn * shs
        ||| exists|i: int| 0 <= i < phn && i < 256 && n == #[trigger] segment_end(d, i)
        ||| exists|i: int|
            0 <= i < shn && i < 512 && #[trigger] has_bytes(d, i) && n == section_end(d, i)
    }
}

proof fn in_table(off: int, n: int, size: int, i: int, len: int, extra: int)
    requires
        0 <= i < n,
        0 <= extra <= size,
        0 <= off,
        off + n * size <= len,
    ensures
        0 <= off + i * size,
        off + i * size + extra <= len,
{
    assert(0 <= i * size && i * size + size <= n * size) by (nonlinear_arith)
        requires
            0 <= i < n,
            0 <= size,
    ;
}

proof fn along_the_segments(d: Seq<u8>, i: int, end: int)
    requires
        d.len() < u64::MAX,
        d[4] == 1 || d[4] == 2,
        d[5] == 1 || d[5] == 2,
        entries_have_room(d),
        segments(d).0 >= 0,
        segments(d).0 + segments(d).2 * segments(d).1 <= d.len(),
        0 <= i <= structured::at_most(segments(d).2, 256),
        0 <= end,
    ensures
        ({
            let (ph, phs, phn) = segments(d);
            let m = structured::at_most(phn, 256);
            let n = structured::elf_segments(d, is_64(d), d[5] == 2, ph, phs, m, i, end);
            &&& n >= end
            &&& forall|j: int| i <= j < m ==> n >= bytes::capped(#[trigger] segment_end(d, j))
            &&& n == end || exists|j: int|
                i <= j < m && n == bytes::capped(#[trigger] segment_end(d, j))
        }),
    decreases structured::at_most(segments(d).2, 256) - i,
{
    let (ph, phs, phn) = segments(d);
    let m = structured::at_most(phn, 256);
    if i < m {
        in_table(ph, phn, phs, i, d.len() as int, if is_64(d) { 40int } else { 20int });
        let next = bytes::larger(end, bytes::capped(segment_end(d, i)));
        along_the_segments(d, i + 1, next);
        let n = structured::elf_segments(d, is_64(d), d[5] == 2, ph, phs, m, i, end);
        assert(n == structured::elf_segments(d, is_64(d), d[5] == 2, ph, phs, m, i + 1, next));
        assert forall|j: int| i <= j < m implies n >= bytes::capped(#[trigger] segment_end(d, j)) by {
            if j > i {
                assert(i + 1 <= j < m);
            }
        }
        if n != next {
            let j = choose|j: int|
                i + 1 <= j < m && n == bytes::capped(#[trigger] segment_end(d, j));
            assert(i <= j < m && n == bytes::capped(segment_end(d, j)));
        } else if next != end {
            assert(i <= i < m && n == bytes::capped(segment_end(d, i)));
        }
    }
}

proof fn along_the_sections(d: Seq<u8>, i: int, end: int)
    requires
        d.len() < u64::MAX,
        d[4] == 1 || d[4] == 2,
        d[5] == 1 || d[5] == 2,
        entries_have_room(d),
        sections(d).0 >= 0,
        sections(d).0 + sections(d).2 * sections(d).1 <= d.len(),
        0 <= i <= structured::at_most(sections(d).2, 512),
        0 <= end,
    ensures
        ({
            let (sh, shs, shn) = sections(d);
            let m = structured::at_most(shn, 512);
            let n = structured::elf_sections(d, is_64(d), d[5] == 2, sh, shs, m, i, end);
            &&& n >= end
            &&& forall|j: int|
                i <= j < m && #[trigger] has_bytes(d, j) ==> n >= bytes::capped(section_end(d, j))
            &&& n == end || exists|j: int|
                i <= j < m && #[trigger] has_bytes(d, j) && n == bytes::capped(section_end(d, j))
        }),
    decreases structured::at_most(sections(d).2, 512) - i,
{
    let (sh, shs, shn) = sections(d);
    let m = structured::at_most(shn, 512);
    if i < m {
        in_table(sh, shn, shs, i, d.len() as int, if is_64(d) { 40int } else { 24int });
        let next = if has_bytes(d, i) {
            bytes::larger(end, bytes::capped(section_end(d, i)))
        } else {
            end
        };
        along_the_sections(d, i + 1, next);
        let n = structured::elf_sections(d, is_64(d), d[5] == 2, sh, shs, m, i, end);
        assert(n == structured::elf_sections(d, is_64(d), d[5] == 2, sh, shs, m, i + 1, next));
        assert forall|j: int| i <= j < m && #[trigger] has_bytes(d, j) implies n >= bytes::capped(
            section_end(d, j),
        ) by {
            if j > i {
                assert(i + 1 <= j < m);
            }
        }
        if n != next {
            let j = choose|j: int|
                i + 1 <= j < m && #[trigger] has_bytes(d, j) && n == bytes::capped(
                    section_end(d, j),
                );
            assert(i <= j < m && has_bytes(d, j));
        } else if next != end {
            assert(i <= i < m && has_bytes(d, i));
        }
    }
}

/// An ELF file, 32-bit or 64-bit and in either byte order, whose identification
/// is in order, whose tables are all there and have room for their entries, and
/// which reaches no further than the data, is complete; it is as long as it
/// reaches.
pub proof fn an_elf_in_order_is_as_long_as_it_reaches(d: Seq<u8>, n: int)
    requires
        d.len() < u64::MAX,
        d.len() >= 64,
        identified(d),
        entries_have_room(d),
        reaches(d, n),
        n <= d.len(),
    ensures
        ({
            let v = structured::elf_verdict(d);
            &&& states_its_size(v, n, d.len() as int)
            &&& v.evidence.contains(
                (
                    "class"@,
                    text::dec(
                        if is_64(d) {
                            64
                        } else {
                            32
                        },
                    ),
                ),
            )
            &&& v.evidence.contains(
                (
                    "endian"@,
                    if d[5] == 2 {
                        "big"@
                    } else {
                        "little"@
                    },
                ),
            )
            &&& v.evidence.contains(("type"@, text::dec(half(d, 16))))
            &&& v.evidence.contains(("segments"@, text::dec(segments(d).2)))
            &&& v.evidence.contains(("sections"@, text::dec(sections(d).2)))
        }),
{
    let (ph, phs, phn) = segments(d);
    let (sh, shs, shn) = sections(d);
    let big = d[5] == 2;
    let wide = is_64(d);
    assert(structured::elf_head() =~= seq![127u8, 69, 76, 70]);
    let e1 = if phn > 0 {
        bytes::larger(header_len(d), structured::elf_table_end(ph, phn, phs))
    } else {
        header_len(d)
    };
    let e2 = if shn > 0 {
        bytes::larger(e1, structured::elf_table_end(sh, shn, shs))
    } else {
        e1
    };
    let e3 = structured::elf_segments(d, wide, big, ph, phs, structured::at_most(phn, 256), 0, e2);
    let e4 = structured::elf_sections(d, wide, big, sh, shs, structured::at_most(shn, 512), 0, e3);
    assert(structured::elf_end(d, wide, big) == e4);
    if phn > 0 {
        along_the_segments(d, 0, e2);
    }
    if shn > 0 {
        along_the_sections(d, 0, e3);
    }
    assert(e2 <= n);
    assert(e3 <= n) by {
        if e3 != e2 {
            let j = choose|j: int|
                0 <= j < structured::at_most(phn, 256) && e3 == bytes::capped(
                    #[trigger] segment_end(d, j),
                );
            assert(n >= segment_end(d, j));
        }
    }
    assert(e4 <= n) by {
        if e4 != e3 {
            let j = choose|j: int|
                0 <= j < structured::at_most(shn, 512) && #[trigger] has_bytes(d, j) && e4
                    == bytes::capped(section_end(d, j));
            assert(n >= section_end(d, j));
        }
    }
    assert(e4 >= n) by {
        if exists|i: int| 0 <= i < phn && i < 256 && n == #[trigger] segment_end(d, i) {
            let i = choose|i: int| 0 <= i < phn && i < 256 && n == #[trigger] segment_end(d, i);
            assert(e3 >= bytes::capped(segment_end(d, i)));
        } else if exists|i: int|
            0 <= i < shn && i < 512 && #[trigger] has_bytes(d, i) && n == section_end(d, i) {
            let i = choose|i: int|
                0 <= i < shn && i < 512 && #[trigger] has_bytes(d, i) && n == section_end(d, i);
            assert(e4 >= bytes::capped(section_end(d, i)));
        }
    }
    let v = structured::elf_verdict(d);
    assert(v.evidence[0].0 == "class"@);
    assert(v.evidence[1].0 == "endian"@);
    assert(v.evidence[2].0 == "type"@);
    assert(v.evidence[3].0 == "segments"@);
    assert(v.evidence[4].0 == "sections"@);
}

/// What is not identified as ELF is not carved as it.
pub proof fn only_elf_is_carved(d: Seq<u8>)
    requires
        d.len() >= 24,
        !identified(d),
    ensures
        structured::elf_verdict(d).status == Status::Rejected,
{
    assert(structured::elf_head() =~= seq![127u8, 69, 76, 70]);
}

} // verus!
