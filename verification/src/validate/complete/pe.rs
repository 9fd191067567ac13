//! Windows executables.

use vstd::prelude::*;
use crate::text;
use super::super::{Status, pe};
use super::{le16, le32, stands};

verus! {

broadcast use super::group_read;

/// Where the PE header is, as the DOS header says.
pub open spec fn header_at(d: Seq<u8>) -> int {
    le32(d, 0x3C)
}

/// How many sections the COFF header declares.
pub open spec fn section_count(d: Seq<u8>) -> int {
    le16(d, header_at(d) + 6)
}

/// Where the section table is: behind the optional header, whose size the COFF
/// header declares.
pub open spec fn table_at(d: Seq<u8>) -> int {
    header_at(d) + 24 + le16(d, header_at(d) + 20)
}

/// Where the headers end: each section has 40 bytes in the table.
pub open spec fn headers_end(d: Seq<u8>) -> int {
    table_at(d) + 40 * section_count(d)
}

/// Whether the `i`-th section has data in the file.
pub open spec fn has_data(d: Seq<u8>, i: int) -> bool {
    le32(d, table_at(d) + 40 * i + 16) > 0 && le32(d, table_at(d) + 40 * i + 20) > 0
}

/// Where the data of the `i`-th section begins.
pub open spec fn data_begins(d: Seq<u8>, i: int) -> int {
    le32(d, table_at(d) + 40 * i + 20)
}

/// Where the data of the `i`-th section ends.
pub open spec fn data_ends(d: Seq<u8>, i: int) -> int {
    le32(d, table_at(d) + 40 * i + 20) + le32(d, table_at(d) + 40 * i + 16)
}

/// Where the data directories are: 96 bytes into a 32-bit optional header, 112
/// into a 64-bit one.
pub open spec fn directories_at(d: Seq<u8>) -> Option<int> {
    let kind = le16(d, header_at(d) + 24);
    if kind == 0x10B {
        Some(header_at(d) + 24 + 96)
    } else if kind == 0x20B {
        Some(header_at(d) + 24 + 112)
    } else {
        None
    }
}

/// Whether the executable is signed: the fifth data directory is declared, and
/// names a range.
pub open spec fn is_signed(d: Seq<u8>) -> bool {
    directories_at(d) matches Some(at) && {
        &&& at + 40 <= d.len()
        &&& le32(d, at - 4) >= 5
        &&& le32(d, at + 8 * 4) > 0
        &&& le32(d, at + 8 * 4 + 4) > 0
    }
}

/// Where the certificates of a signed executable end.
pub open spec fn certificates_end(d: Seq<u8>) -> int {
    let at = directories_at(d)->0;
    le32(d, at + 8 * 4) + le32(d, at + 8 * 4 + 4)
}

/// Whether the headers are in order: `MZ`, a pointer to `PE` and two zeros, one
/// section at least and 96 at most, an optional header of 4096 bytes at most,
/// and a section table that is all there.
pub open spec fn headers_in_order(d: Seq<u8>) -> bool {
    &&& d.len() >= 0x40
    &&& d[0] == 77 && d[1] == 90
    &&& 4 <= header_at(d) <= 4096
    &&& header_at(d) + 24 <= d.len()
    &&& stands(d, seq![80u8, 69, 0, 0], header_at(d))
    &&& 1 <= section_count(d) <= 96
    &&& le16(d, header_at(d) + 20) <= 4096
    &&& headers_end(d) <= d.len()
}

/// Whether no section's data lies in the headers.
pub open spec fn sections_in_order(d: Seq<u8>) -> bool {
    forall|i: int|
        0 <= i < section_count(d) && #[trigger] has_data(d, i) ==> data_begins(d, i)
            >= headers_end(d)
}

/// Whether `n` is as far as the file reaches: to the end of its headers, its
/// sections' data and its certificates, whichever is last.
pub open spec fn reaches(d: Seq<u8>, n: int) -> bool {
    &&& n >= headers_end(d)
    &&& forall|i: int|
        0 <= i < section_count(d) && #[trigger] has_data(d, i) ==> n >= data_ends(d, i)
    &&& is_signed(d) ==> n >= certificates_end(d)
    &&& {
        ||| n == headers_end(d)
        ||| exists|i: int|
            0 <= i < section_count(d) && #[trigger] has_data(d, i) && n == data_ends(d, i)
        ||| is_signed(d) && n == certificates_end(d)
    }
}

proof fn signature_found(d: Seq<u8>)
    requires
        headers_in_order(d),
    ensures
        pe::signature_end(d, header_at(d) + 24) == (if is_signed(d) {
            certificates_end(d)
        } else {
            0
        }),
{
    let opt = header_at(d) + 24;
    assert(pe::half(d, opt) == le16(d, opt));
    if let Some(at) = directories_at(d) {
        assert(at + 32 == at + 8 * 4);
        if at + 40 <= d.len() {
            assert(pe::word(d, at - 4) == le32(d, at - 4));
            assert(pe::word(d, at + 32) == le32(d, at + 32));
            assert(pe::word(d, at + 36) == le32(d, at + 36));
        } else {
            assert(pe::word(d, at + 36) == 0);
        }
    }
}

/// What the walk over the sections comes to, from the `i`-th on.
proof fn sections_found(d: Seq<u8>, i: int, end: int)
    requires
        0 <= i <= section_count(d),
    ensures
        ({
            let r = pe::sections_from(
                d,
                table_at(d),
                section_count(d),
                headers_end(d),
                i,
                end,
            );
            &&& r is Some <==> forall|j: int|
                i <= j < section_count(d) && #[trigger] has_data(d, j) ==> data_begins(d, j)
                    >= headers_end(d)
            &&& r matches Some(n) ==> {
                &&& n >= end
                &&& forall|j: int|
                    i <= j < section_count(d) && #[trigger] has_data(d, j) ==> n >= data_ends(d, j)
                &&& n == end || exists|j: int|
                    i <= j < section_count(d) && #[trigger] has_data(d, j) && n == data_ends(d, j)
            }
        }),
    decreases section_count(d) - i,
{
    if i < section_count(d) {
        let size = le32(d, table_at(d) + 40 * i + 16);
        let at = le32(d, table_at(d) + 40 * i + 20);
        let next = if has_data(d, i) && at + size > end {
            at + size
        } else {
            end
        };
        sections_found(d, i + 1, next);
    }
}

/// An executable is complete exactly where its headers are in order, none of
/// its sections begins in them, and its sections and its certificates are all
/// there. Its length is then as far as they reach, whether it is a 32-bit or a
/// 64-bit one, and the evidence says whether it is signed.
pub proof fn an_executable_in_order_is_complete(d: Seq<u8>)
    ensures
        ({
            let v = pe::verdict(d);
            &&& v.status == Status::Valid <==> {
                &&& headers_in_order(d)
                &&& sections_in_order(d)
                &&& forall|i: int|
                    0 <= i < section_count(d) && #[trigger] has_data(d, i) ==> data_ends(d, i)
                        <= d.len()
                &&& is_signed(d) ==> certificates_end(d) <= d.len()
            }
            &&& v.status == Status::Valid ==> {
                &&& reaches(d, v.length)
                &&& v.refined_ext is None
                &&& v.evidence == seq![
                    ("machine"@, "0x"@ + text::hex(le16(d, header_at(d) + 4), 4)),
                    ("sections"@, text::dec(section_count(d))),
                    ("pe_offset"@, text::dec(header_at(d))),
                    (
                        "signed"@,
                        if is_signed(d) {
                            "true"@
                        } else {
                            "false"@
                        },
                    ),
                ]
            }
        }),
{
    let v = pe::verdict(d);
    signature_is_four_bytes(d);
    if headers_in_order(d) {
        signature_found(d);
        sections_found(d, 0, headers_end(d));
    }
}

/// `PE` and two zeros, read as a number.
proof fn signature_is_four_bytes(d: Seq<u8>)
    ensures
        0 <= header_at(d) && header_at(d) + 4 <= d.len() ==> (stands(
            d,
            seq![80u8, 69, 0, 0],
            header_at(d),
        ) <==> le32(d, header_at(d)) == 0x4550),
{
    let mark = seq![80u8, 69, 0, 0];
    let at = header_at(d);
    if stands(d, mark, at) {
        assert(d[at + 0] == mark[0] && d[at + 1] == mark[1] && d[at + 2] == mark[2] && d[at + 3]
            == mark[3]);
    }
    if 0 <= at && at + 4 <= d.len() && le32(d, at) == 0x4550 {
        assert(d[at] == 80 && d[at + 1] == 69 && d[at + 2] == 0 && d[at + 3] == 0);
        assert forall|i: int| 0 <= i < mark.len() implies d[at + i] == #[trigger] mark[i] by {
            assert(i == 0 || i == 1 || i == 2 || i == 3);
        }
    }
}

/// An executable whose headers are in order, but whose sections or certificates
/// run past the data, is carved up to the end of its headers, for the want of
/// the rest.
pub proof fn a_cut_executable_keeps_its_headers(d: Seq<u8>)
    requires
        headers_in_order(d),
        sections_in_order(d),
        pe::verdict(d).status != Status::Valid,
    ensures
        ({
            let v = pe::verdict(d);
            &&& v.status == Status::Partial
            &&& v.length == headers_end(d)
            &&& v.ran_out
            &&& !v.length_established
        }),
{
    signature_is_four_bytes(d);
    signature_found(d);
    sections_found(d, 0, headers_end(d));
}

/// An executable that the data ends in the headers of is cut short, and keeps the
/// headers that are whole: up to the signature, up to the file header, or up to
/// the section table.
pub proof fn an_executable_cut_in_its_headers_keeps_what_is_whole(d: Seq<u8>)
    requires
        d.len() >= 64,
        d[0] == 77,
        d[1] == 90,
        4 <= le32(d, 60) <= 4096,
    ensures
        ({
            let v = pe::verdict(d);
            let at = le32(d, 60);
            let table = at + 24 + le16(d, at + 20);
            let signed = d.len() >= at + 4 && d[at] == 80 && d[at + 1] == 69 && d[at + 2] == 0
                && d[at + 3] == 0;
            let sections = le16(d, at + 6);
            &&& d.len() < at + 4 ==> {
                &&& v.status == Status::Partial && v.ran_out
                &&& v.length == (if at <= d.len() {
                    at
                } else {
                    64
                })
            }
            &&& d.len() >= at + 4 && !signed ==> v.status == Status::Rejected && !v.ran_out
            &&& signed && d.len() < at + 24 ==> {
                &&& v.status == Status::Partial && v.ran_out
                &&& v.length == at + 4
            }
            &&& signed && d.len() >= at + 24 && (sections == 0 || sections > 96 || le16(d, at + 20)
                > 4096) ==> v.status == Status::Rejected && !v.ran_out
            &&& signed && d.len() >= at + 24 && 1 <= sections <= 96 && le16(d, at + 20) <= 4096
                && table + 40 * sections > d.len() ==> {
                &&& v.status == Status::Partial && v.ran_out
                &&& v.length == (if table <= d.len() {
                    table
                } else {
                    at + 24
                })
            }
        }),
{
}

/// What does not begin with `MZ`, or does not point at headers near its start, is
/// no executable.
pub proof fn only_an_executable_is_carved(d: Seq<u8>)
    requires
        d.len() < 64 || d[0] != 77 || d[1] != 90 || !(4 <= le32(d, 60) <= 4096),
    ensures
        pe::verdict(d).status == Status::Rejected,
{
}

} // verus!
