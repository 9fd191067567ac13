//! Archives that state their own size: 7z, CAB and RAR.
//!
//! Each declares its total length, or enough to compute it, within its first
//! few dozen bytes. Reading the field back and checking that it is consistent
//! is the whole job.

use vstd::prelude::*;
use vstd::slice::*;
use crate::bytes;
use crate::crc32;
use crate::text;
use super::{Outcome, Verdict};

verus! {

broadcast use bytes::slice_fits;

/// The 7z signature.
pub open spec fn sevenz_head() -> Seq<u8> {
    seq![0x37u8, 0x7A, 0xBC, 0xAF, 0x27, 0x1C]
}

/// The start header names where the metadata block sits, and the file ends
/// where that block ends. The start header carries its own CRC-32.
pub open spec fn sevenz_verdict(d: Seq<u8>) -> Verdict {
    let version = text::dec(d[6] as int) + "."@ + text::dec(d[7] as int);
    let next_offset = bytes::u64_le(d, 12);
    let next_size = bytes::u64_le(d, 20);
    let total = 32 + next_offset + next_size;
    if d.len() < 32 {
        Verdict::reject("shorter than a 7z start header"@).cut_if(bytes::agrees(d, sevenz_head(), 0))
    } else if !bytes::begins(d, sevenz_head()) {
        Verdict::reject("signature mismatch"@)
    } else if d[6] != 0 {
        Verdict::reject("format version "@ + version + " is not 0.x"@)
    } else if bytes::u32_le(d, 8) != crc32::checksum(d.subrange(12, 32)) {
        Verdict::reject(
            "the start header's CRC-32 does not match; the offsets in it are not usable"@,
        )
    } else if total > u64::MAX {
        Verdict::reject("the next-header offset and size overflow"@)
    } else {
        (if total > d.len() {
            Verdict::partial(
                total,
                "the start header declares "@ + text::dec(total) + " bytes but only "@ + text::dec(
                    d.len() as int,
                ) + " are available"@,
            ).established().truncated()
        } else {
            Verdict::valid(total)
        }).with("version"@, version).with("next_header_offset"@, text::dec(next_offset)).with(
            "next_header_size"@,
            text::dec(next_size),
        )
    }
}

/// 7z: where the metadata block ends.
pub fn validate_7z(d: &[u8]) -> (r: Outcome)
    ensures
        r@ == sevenz_verdict(d@),
{
    let head: [u8; 6] = [0x37, 0x7A, 0xBC, 0xAF, 0x27, 0x1C];
    assert(head@ =~= sevenz_head());
    if d.len() < 32 {
        return Outcome::reject("shorter than a 7z start header").cut_if(
            bytes::agrees_at(d, &head, 0),
        );
    }
    if !bytes::stands_at(d, &head, 0) {
        return Outcome::reject("signature mismatch");
    }
    let version = text::cat3(
        text::decimal(d[6] as u64).as_str(),
        ".",
        text::decimal(d[7] as u64).as_str(),
    );
    if d[6] != 0 {
        return Outcome::reject(
            text::cat3("format version ", version.as_str(), " is not 0.x").as_str(),
        );
    }
    let want_crc: u32 = bytes::get32(d, 8, false);
    let got_crc: u32 = crc32::crc32(slice_subrange(d, 12, 32));
    if want_crc != got_crc {
        // The offsets cannot be trusted at all.
        return Outcome::reject(
            "the start header's CRC-32 does not match; the offsets in it are not usable",
        );
    }
    let next_offset: u64 = bytes::get64(d, 12, false);
    let next_size: u64 = bytes::get64(d, 20, false);
    let total: u128 = 32 + next_offset as u128 + next_size as u128;
    if total > 0xFFFF_FFFF_FFFF_FFFFu128 {
        return Outcome::reject("the next-header offset and size overflow");
    }
    let total: u64 = total as u64;
    let out = if total > d.len() as u64 {
        Outcome::partial(
            total,
            text::cat5(
                "the start header declares ",
                text::decimal(total).as_str(),
                " bytes but only ",
                text::decimal(d.len() as u64).as_str(),
                " are available",
            ).as_str(),
        ).established().truncated()
    } else {
        Outcome::valid(total)
    };
    out.with("version", version).with("next_header_offset", next_offset).with(
        "next_header_size",
        next_size,
    )
}

/// `MSCF`.
pub open spec fn cab_head() -> Seq<u8> {
    seq![0x4Du8, 0x53, 0x43, 0x46]
}

/// The total size stands in the header.
pub open spec fn cab_verdict(d: Seq<u8>) -> Verdict {
    let total = bytes::u32_le(d, 8);
    let first_file = bytes::u32_le(d, 16);
    let folders = bytes::u16_le(d, 26);
    let files = bytes::u16_le(d, 28);
    let version = text::dec(d[25] as int) + "."@ + text::dec(d[24] as int);
    if d.len() < 36 {
        Verdict::reject("shorter than a CFHEADER"@).cut_if(bytes::agrees(d, cab_head(), 0))
    } else if !bytes::begins(d, cab_head()) {
        Verdict::reject("signature mismatch"@)
    } else if bytes::u32_le(d, 4) != 0 || bytes::u32_le(d, 12) != 0 || bytes::u32_le(d, 20) != 0 {
        Verdict::reject("a reserved field in the CFHEADER is non-zero"@)
    } else if d[25] != 1 || d[24] != 3 {
        Verdict::reject("cabinet version "@ + version + " is not 1.3"@)
    } else if total < 36 {
        Verdict::reject("the declared cabinet size is smaller than its own header"@)
    } else if first_file < 36 || first_file > total {
        Verdict::reject("the first-file offset lies outside the cabinet"@)
    } else if folders == 0 || files == 0 {
        Verdict::reject("the cabinet declares no folders or no files"@)
    } else {
        (if total > d.len() {
            Verdict::partial(
                total,
                "the header declares "@ + text::dec(total) + " bytes but only "@ + text::dec(
                    d.len() as int,
                ) + " are available"@,
            ).established().truncated()
        } else {
            Verdict::valid(total)
        }).with("version"@, version).with("folders"@, text::dec(folders)).with(
            "files"@,
            text::dec(files),
        )
    }
}

/// Microsoft cabinet: the size its header declares.
pub fn validate_cab(d: &[u8]) -> (r: Outcome)
    ensures
        r@ == cab_verdict(d@),
{
    let head: [u8; 4] = [0x4D, 0x53, 0x43, 0x46];
    assert(head@ =~= cab_head());
    if d.len() < 36 {
        return Outcome::reject("shorter than a CFHEADER").cut_if(
            bytes::agrees_at(d, &head, 0),
        );
    }
    if !bytes::stands_at(d, &head, 0) {
        return Outcome::reject("signature mismatch");
    }
    // Three reserved fields that every writer leaves zero.
    if bytes::get32(d, 4, false) != 0 || bytes::get32(d, 12, false) != 0 || bytes::get32(
        d,
        20,
        false,
    ) != 0 {
        return Outcome::reject("a reserved field in the CFHEADER is non-zero");
    }
    let total: u64 = bytes::get32(d, 8, false) as u64;
    let first_file: u64 = bytes::get32(d, 16, false) as u64;
    let minor: u8 = d[24];
    let major: u8 = d[25];
    let folders: u16 = bytes::get16(d, 26, false);
    let files: u16 = bytes::get16(d, 28, false);
    let version = text::cat3(
        text::decimal(major as u64).as_str(),
        ".",
        text::decimal(minor as u64).as_str(),
    );
    if major != 1 || minor != 3 {
        return Outcome::reject(
            text::cat3("cabinet version ", version.as_str(), " is not 1.3").as_str(),
        );
    }
    if total < 36 {
        return Outcome::reject("the declared cabinet size is smaller than its own header");
    }
    if first_file < 36 || first_file > total {
        return Outcome::reject("the first-file offset lies outside the cabinet");
    }
    if folders == 0 || files == 0 {
        return Outcome::reject("the cabinet declares no folders or no files");
    }
    let out = if total > d.len() as u64 {
        Outcome::partial(
            total,
            text::cat5(
                "the header declares ",
                text::decimal(total).as_str(),
                " bytes but only ",
                text::decimal(d.len() as u64).as_str(),
                " are available",
            ).as_str(),
        ).established().truncated()
    } else {
        Outcome::valid(total)
    };
    out.with("version", version).with("folders", folders).with("files", files)
}

/// The RAR 4 marker.
pub open spec fn rar4_head() -> Seq<u8> {
    seq![0x52u8, 0x61, 0x72, 0x21, 0x1A, 0x07, 0x00]
}

/// The RAR 5 marker.
pub open spec fn rar5_head() -> Seq<u8> {
    seq![0x52u8, 0x61, 0x72, 0x21, 0x1A, 0x07, 0x01, 0x00]
}

/// Whether the data ended inside a marker.
pub open spec fn cut_short(d: Seq<u8>, head: Seq<u8>) -> bool {
    d.len() < head.len() && d == head.subrange(0, d.len() as int)
}

fn ends_inside(d: &[u8], head: &[u8]) -> (r: bool)
    ensures
        r == cut_short(d@, head@),
{
    d.len() < head.len() && bytes::same(d, slice_subrange(head, 0, d.len()))
}

/// RAR 4 and RAR 5 share a marker but nothing else. Neither states a total
/// size in a fixed place, so this confirms the marker and that a block can
/// follow it, and no end.
pub open spec fn rar_verdict(d: Seq<u8>) -> Verdict {
    if bytes::begins(d, rar5_head()) {
        if d.len() < 16 {
            Verdict::reject("truncated immediately after the RAR5 marker"@).truncated()
        } else {
            Verdict::partial(
                8,
                "RAR5 marker and a following block; the archive's end needs a block walk, so this length covers the marker only"@,
            ).with("version"@, text::dec(5))
        }
    } else if bytes::begins(d, rar4_head()) {
        if d.len() < 14 {
            Verdict::reject("truncated immediately after the RAR4 marker"@).truncated()
        } else {
            Verdict::partial(
                7,
                "RAR4 marker and a following block; the archive's end needs a block walk, so this length covers the marker only"@,
            ).with("version"@, text::dec(4))
        }
    } else {
        Verdict::reject("not a RAR marker"@).cut_if(
            cut_short(d, rar5_head()) || cut_short(d, rar4_head()),
        )
    }
}

/// RAR: the marker, and no claim on where the archive ends.
pub fn validate_rar(d: &[u8]) -> (r: Outcome)
    ensures
        r@ == rar_verdict(d@),
{
    let four: [u8; 7] = [0x52, 0x61, 0x72, 0x21, 0x1A, 0x07, 0x00];
    let five: [u8; 8] = [0x52, 0x61, 0x72, 0x21, 0x1A, 0x07, 0x01, 0x00];
    assert(four@ =~= rar4_head());
    assert(five@ =~= rar5_head());
    if bytes::stands_at(d, &five, 0) {
        if d.len() < 16 {
            return Outcome::reject("truncated immediately after the RAR5 marker").truncated();
        }
        return Outcome::partial(
            8,
            "RAR5 marker and a following block; the archive's end needs a block walk, so this length covers the marker only",
        ).with("version", 5u64);
    }
    if bytes::stands_at(d, &four, 0) {
        if d.len() < 14 {
            return Outcome::reject("truncated immediately after the RAR4 marker").truncated();
        }
        return Outcome::partial(
            7,
            "RAR4 marker and a following block; the archive's end needs a block walk, so this length covers the marker only",
        ).with("version", 4u64);
    }
    Outcome::reject("not a RAR marker").cut_if(ends_inside(d, &five) || ends_inside(d, &four))
}

/// A rejection claims no length, a complete file is all there, and a damaged
/// one claims no more than was there unless it states its own size.
pub proof fn sevenz_is_sound(d: Seq<u8>)
    ensures
        sevenz_verdict(d).sound_for(d.len() as int),
{
}

/// A rejection claims no length, a complete file is all there, and a damaged
/// one claims no more than was there unless it states its own size.
pub proof fn cab_is_sound(d: Seq<u8>)
    ensures
        cab_verdict(d).sound_for(d.len() as int),
{
}

/// A rejection claims no length, a complete file is all there, and a damaged
/// one claims no more than was there unless it states its own size.
pub proof fn rar_is_sound(d: Seq<u8>)
    ensures
        rar_verdict(d).sound_for(d.len() as int),
{
}

} // verus!
