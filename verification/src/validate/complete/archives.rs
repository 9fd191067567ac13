//! 7z, cabinet and RAR archives.

use vstd::prelude::*;
use crate::crc32;
use crate::text;
use super::super::{Status, Verdict, archive};
use super::{le16, le32, le64, stands};

verus! {

broadcast use super::group_read;

/// Whether `v` is the verdict on a file whose own header states that it is
/// `total` bytes long, of which `available` are there.
pub open spec fn states_its_size(v: Verdict, total: int, available: int) -> bool {
    &&& v.status == (if total <= available {
        Status::Valid
    } else {
        Status::Partial
    })
    &&& v.length == total
    &&& v.length_established
    &&& v.ran_out == (total > available)
    &&& v.refined_ext is None
}

/// Whether a 7z start header is in order: the signature, a version 0, and a
/// CRC-32 that is that of the twenty bytes behind it.
pub open spec fn sevenz_in_order(d: Seq<u8>) -> bool {
    &&& d.len() >= 32
    &&& stands(d, seq![55u8, 122, 188, 175, 39, 28], 0)
    &&& d[6] == 0
    &&& le32(d, 8) == crc32::checksum(d.subrange(12, 32))
    &&& 32 + le64(d, 12) + le64(d, 20) <= u64::MAX
}

/// A 7z archive is one exactly where its start header is in order, and ends
/// where that says its metadata does, counted from behind the start header.
pub proof fn a_7z_ends_where_its_metadata_does(d: Seq<u8>)
    ensures
        ({
            let v = archive::sevenz_verdict(d);
            &&& v.status != Status::Rejected <==> sevenz_in_order(d)
            &&& sevenz_in_order(d) ==> states_its_size(
                v,
                32 + le64(d, 12) + le64(d, 20),
                d.len() as int,
            )
            &&& v.status == Status::Valid ==> v.evidence == seq![
                ("version"@, text::dec(0) + "."@ + text::dec(d[7] as int)),
                ("next_header_offset"@, text::dec(le64(d, 12))),
                ("next_header_size"@, text::dec(le64(d, 20))),
            ]
        }),
{
    assert(archive::sevenz_head() =~= seq![55u8, 122, 188, 175, 39, 28]);
}

/// Whether a cabinet header is in order: `MSCF`, three reserved fields that are
/// zero, version 1.3, a first file inside the cabinet and behind the header, and
/// at least one folder and one file.
pub open spec fn cab_in_order(d: Seq<u8>) -> bool {
    &&& d.len() >= 36
    &&& stands(d, seq![77u8, 83, 67, 70], 0)
    &&& le32(d, 4) == 0 && le32(d, 12) == 0 && le32(d, 20) == 0
    &&& d[24] == 3 && d[25] == 1
    &&& 36 <= le32(d, 16) <= le32(d, 8)
    &&& le16(d, 26) >= 1
    &&& le16(d, 28) >= 1
}

/// A cabinet is one exactly where its header is in order, and is as long as
/// that says.
pub proof fn a_cabinet_is_as_long_as_it_says(d: Seq<u8>)
    ensures
        ({
            let v = archive::cab_verdict(d);
            &&& v.status != Status::Rejected <==> cab_in_order(d)
            &&& cab_in_order(d) ==> states_its_size(v, le32(d, 8), d.len() as int)
            &&& v.status == Status::Valid ==> v.evidence == seq![
                ("version"@, text::dec(1) + "."@ + text::dec(3)),
                ("folders"@, text::dec(le16(d, 26))),
                ("files"@, text::dec(le16(d, 28))),
            ]
        }),
{
    assert(archive::cab_head() =~= seq![77u8, 83, 67, 70]);
}

/// A RAR archive, which does not state where it ends, is carved as its marker
/// where a block header can follow it: eight bytes in version 5, seven in
/// version 4.
pub proof fn a_rar_is_carved_as_its_marker(d: Seq<u8>)
    ensures
        ({
            let v = archive::rar_verdict(d);
            let five = stands(d, seq![82u8, 97, 114, 33, 26, 7, 1, 0], 0) && d.len() >= 16;
            let four = stands(d, seq![82u8, 97, 114, 33, 26, 7, 0], 0) && d.len() >= 14;
            &&& v.status == (if five || four {
                Status::Partial
            } else {
                Status::Rejected
            })
            &&& five ==> v.length == 8 && v.evidence == seq![("version"@, text::dec(5))]
            &&& four ==> v.length == 7 && v.evidence == seq![("version"@, text::dec(4))]
            &&& five || four ==> !v.ran_out && !v.length_established
        }),
{
    let five = seq![82u8, 97, 114, 33, 26, 7, 1, 0];
    let four = seq![82u8, 97, 114, 33, 26, 7, 0];
    assert(archive::rar5_head() =~= five);
    assert(archive::rar4_head() =~= four);
    if stands(d, five, 0) {
        assert(d[0int + 6] == five[6]);
    }
    if stands(d, four, 0) {
        assert(d[0int + 6] == four[6]);
    }
}

} // verus!
