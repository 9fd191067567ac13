//! Windows executables: `MZ` is two bytes and means nothing.
//!
//! The one field of the DOS header that matters points at the real header, so
//! the pointer must land on `PE` and two zeros inside the data, the header
//! behind it must be sane, and the section table must describe ranges that
//! exist. The file ends at its last section's raw data, or at its certificate
//! table where it is signed; an appended payload, which no header describes,
//! lies beyond.

use vstd::prelude::*;
use vstd::slice::*;
use crate::bytes;
use crate::text;
use super::{Outcome, Verdict};

verus! {

broadcast use bytes::slice_fits;

/// Two bytes, or zero where they are past the data.
pub open spec fn half(d: Seq<u8>, at: int) -> int {
    if bytes::fits(d, at, 2) {
        bytes::u16_le(d, at)
    } else {
        0
    }
}

/// Four bytes, or zero where they are past the data.
pub open spec fn word(d: Seq<u8>, at: int) -> int {
    if bytes::fits(d, at, 4) {
        bytes::u32_le(d, at)
    } else {
        0
    }
}

/// Where the certificate table ends, or zero where there is none. It is named
/// by data directory entry 4, whose place depends on the kind of the optional
/// header at `opt`.
pub open spec fn signature_end(d: Seq<u8>, opt: int) -> int {
    let magic = half(d, opt);
    let directories = if magic == 0x10B {
        opt + 96
    } else {
        opt + 112
    };
    let off = word(d, directories + 32);
    let size = word(d, directories + 36);
    if (magic == 0x10B || magic == 0x20B) && word(d, directories - 4) > 4 && off > 0 && size > 0 {
        off + size
    } else {
        0
    }
}

/// The sections from the `i`-th on: how far they reach, or `None` where one
/// starts inside the headers, which end at `headers`. A section without file
/// data does not count.
pub open spec fn sections_from(
    d: Seq<u8>,
    table: int,
    n: int,
    headers: int,
    i: int,
    end: int,
) -> Option<int>
    decreases n - i,
{
    let size = bytes::u32_le(d, table + 40 * i + 16);
    let at = bytes::u32_le(d, table + 40 * i + 20);
    if i >= n {
        Some(end)
    } else if size == 0 || at == 0 {
        sections_from(d, table, n, headers, i + 1, end)
    } else if at < headers {
        None
    } else {
        sections_from(d, table, n, headers, i + 1, bytes::larger(end, at + size))
    }
}

/// What a file whose section table is whole comes to.
pub open spec fn concluded(d: Seq<u8>, lfanew: int) -> Verdict {
    let coff = lfanew + 4;
    let sections = bytes::u16_le(d, coff + 2);
    let table = coff + 20 + bytes::u16_le(d, coff + 16);
    let headers = table + 40 * sections;
    let signed_to = signature_end(d, coff + 20);
    match sections_from(d, table, sections, headers, 0, headers) {
        None => Verdict::reject("a section's raw data starts inside the headers"@),
        Some(raw) => {
            let end = bytes::larger(raw, signed_to);
            (if end > d.len() {
                Verdict::partial(
                    headers,
                    "the section table is intact but section data runs to "@ + text::dec(end)
                        + ", past the "@ + text::dec(d.len() as int)
                        + " bytes available; length runs to the end of the headers"@,
                ).truncated()
            } else {
                Verdict::valid(end).note(
                    if signed_to > 0 {
                        "length runs to the end of the Authenticode certificate table, which sits past the last section"@
                    } else {
                        "length is the end of the last section's raw data; an appended installer payload, which no header describes, would lie beyond it"@
                    },
                )
            }).with("machine"@, "0x"@ + text::hex(bytes::u16_le(d, coff), 4)).with(
                "sections"@,
                text::dec(sections),
            ).with("pe_offset"@, text::dec(lfanew)).with("signed"@, text::yes_no(signed_to > 0))
        },
    }
}

/// Whether the bytes that are there begin an executable.
pub open spec fn begun(d: Seq<u8>) -> bool {
    bytes::may_hold(d, 0, 0x4D) && bytes::may_hold(d, 1, 0x5A)
}

fn begun_at(d: &[u8]) -> (r: bool)
    ensures
        r == begun(d@),
{
    bytes::may_be(d, 0, 0x4D) && bytes::may_be(d, 1, 0x5A)
}

/// What the bytes of `d` are as a Windows executable. One with more than 96
/// sections is nothing a compiler produced.
pub open spec fn verdict(d: Seq<u8>) -> Verdict {
    let lfanew = bytes::u32_le(d, 0x3C);
    let coff = lfanew + 4;
    let sections = bytes::u16_le(d, coff + 2);
    let opt_size = bytes::u16_le(d, coff + 16);
    let table = coff + 20 + opt_size;
    if d.len() < 0x40 {
        Verdict::reject("shorter than a DOS header"@).cut_if(begun(d))
    } else if d[0] != 0x4D || d[1] != 0x5A {
        Verdict::reject("does not begin with MZ"@)
    } else if lfanew < 4 || lfanew > 4096 {
        Verdict::reject(
            "e_lfanew is "@ + text::dec(lfanew) + ", which is not a PE header offset"@,
        )
    } else if d.len() < coff {
        Verdict::partial(
            if lfanew <= d.len() {
                lfanew
            } else {
                0x40
            },
            "the DOS header points past the available data; truncated before the PE header"@,
        ).truncated()
    } else if bytes::u32_le(d, lfanew) != 0x4550 {
        Verdict::reject("e_lfanew does not point at a PE signature"@)
    } else if d.len() < coff + 20 {
        Verdict::partial(coff, "truncated inside the COFF header"@).truncated()
    } else if sections == 0 || sections > 96 {
        Verdict::reject("the COFF header declares "@ + text::dec(sections) + " sections"@)
    } else if opt_size > 4096 {
        Verdict::reject("the optional header is "@ + text::dec(opt_size) + " bytes"@)
    } else if table + 40 * sections > d.len() {
        Verdict::partial(
            if table <= d.len() {
                table
            } else {
                coff + 20
            },
            "the section table extends past the available data; truncated"@,
        ).truncated()
    } else {
        concluded(d, lfanew)
    }
}

fn half_at(d: &[u8], at: usize) -> (r: u16)
    ensures
        r == half(d@, at as int),
{
    match bytes::le16(d, at) {
        Some(v) => v,
        None => 0,
    }
}

fn word_at(d: &[u8], at: usize) -> (r: u32)
    ensures
        r == word(d@, at as int),
{
    match bytes::le32(d, at) {
        Some(v) => v,
        None => 0,
    }
}

fn signed_end(d: &[u8], opt: usize) -> (r: u64)
    requires
        opt <= 0x1_0000,
    ensures
        r == signature_end(d@, opt as int),
{
    let magic: u16 = half_at(d, opt);
    let directories: usize = if magic == 0x10B {
        opt + 96
    } else {
        opt + 112
    };
    let off: u64 = word_at(d, directories + 32) as u64;
    let size: u64 = word_at(d, directories + 36) as u64;
    if (magic == 0x10B || magic == 0x20B) && word_at(d, directories - 4) > 4 && off > 0 && size > 0 {
        off + size
    } else {
        0
    }
}

/// How far the raw data of the sections reaches.
fn sections_end(d: &[u8], table: usize, n: u16, headers: usize) -> (r: Option<u64>)
    requires
        table + 40 * n == headers,
        headers <= d@.len(),
    ensures
        match r {
            Some(end) => sections_from(
                d@,
                table as int,
                n as int,
                headers as int,
                0,
                headers as int,
            ) == Some(end as int),
            None => sections_from(
                d@,
                table as int,
                n as int,
                headers as int,
                0,
                headers as int,
            ) is None,
        },
{
    let ghost whole = sections_from(
        d@,
        table as int,
        n as int,
        headers as int,
        0,
        headers as int,
    );
    let mut end: u64 = headers as u64;
    let mut i: usize = 0;
    while i < n as usize
        invariant
            i <= n,
            table + 40 * n == headers,
            headers <= d@.len(),
            whole == sections_from(
                d@,
                table as int,
                n as int,
                headers as int,
                0,
                headers as int,
            ),
            whole == sections_from(
                d@,
                table as int,
                n as int,
                headers as int,
                i as int,
                end as int,
            ),
        decreases n - i,
    {
        let at: usize = table + 40 * i;
        let size: u64 = bytes::get32(d, at + 16, false) as u64;
        let raw: u64 = bytes::get32(d, at + 20, false) as u64;
        if size != 0 && raw != 0 {
            if raw < headers as u64 {
                return None;
            }
            end = bytes::max64(end, raw + size);
        }
        i += 1;
    }
    Some(end)
}

/// What a file whose section table is whole comes to.
fn conclude(d: &[u8], lfanew: usize) -> (r: Outcome)
    requires
        4 <= lfanew <= 4096,
        lfanew + 24 <= d@.len(),
        bytes::u16_le(d@, lfanew + 20) <= 4096,
        bytes::u16_le(d@, lfanew + 6) <= 96,
        lfanew + 24 + bytes::u16_le(d@, lfanew + 20) + 40 * bytes::u16_le(d@, lfanew + 6)
            <= d@.len(),
    ensures
        r@ == concluded(d@, lfanew as int),
{
    let coff: usize = lfanew + 4;
    let machine: u16 = bytes::get16(d, coff, false);
    let sections: u16 = bytes::get16(d, coff + 2, false);
    let table: usize = coff + 20 + bytes::get16(d, coff + 16, false) as usize;
    let headers: usize = table + 40 * sections as usize;
    let signed_to: u64 = signed_end(d, coff + 20);
    let raw: u64 = match sections_end(d, table, sections, headers) {
        Some(end) => end,
        None => {
            return Outcome::reject("a section's raw data starts inside the headers");
        },
    };
    let end: u64 = bytes::max64(raw, signed_to);
    let out = if end > d.len() as u64 {
        Outcome::partial(
            headers as u64,
            text::cat5(
                "the section table is intact but section data runs to ",
                text::decimal(end).as_str(),
                ", past the ",
                text::decimal(d.len() as u64).as_str(),
                " bytes available; length runs to the end of the headers",
            ).as_str(),
        ).truncated()
    } else if signed_to > 0 {
        Outcome::valid(end).note(
            "length runs to the end of the Authenticode certificate table, which sits past the last section",
        )
    } else {
        Outcome::valid(end).note(
            "length is the end of the last section's raw data; an appended installer payload, which no header describes, would lie beyond it",
        )
    };
    out.with(
        "machine",
        text::cat2("0x", text::hexadecimal(machine as u64, 4).as_str()),
    ).with("sections", sections).with("pe_offset", lfanew).with("signed", signed_to > 0)
}

/// PE: the end of the last section, or of the certificate table.
pub fn validate(d: &[u8]) -> (r: Outcome)
    ensures
        r@ == verdict(d@),
{
    if d.len() < 0x40 {
        return Outcome::reject("shorter than a DOS header").cut_if(begun_at(d));
    }
    if d[0] != 0x4D || d[1] != 0x5A {
        return Outcome::reject("does not begin with MZ");
    }
    let lfanew: u32 = bytes::get32(d, 0x3C, false);
    // The real header cannot sit inside the DOS header, and is a few hundred
    // bytes in at most.
    if lfanew < 4 || lfanew > 4096 {
        return Outcome::reject(
            text::cat3(
                "e_lfanew is ",
                text::decimal(lfanew as u64).as_str(),
                ", which is not a PE header offset",
            ).as_str(),
        );
    }
    let lfanew: usize = lfanew as usize;
    let coff: usize = lfanew + 4;
    if d.len() < coff {
        let length: usize = if lfanew <= d.len() {
            lfanew
        } else {
            0x40
        };
        return Outcome::partial(
            length as u64,
            "the DOS header points past the available data; truncated before the PE header",
        ).truncated();
    }
    if bytes::get32(d, lfanew, false) != 0x4550 {
        return Outcome::reject("e_lfanew does not point at a PE signature");
    }
    if d.len() < coff + 20 {
        return Outcome::partial(coff as u64, "truncated inside the COFF header").truncated();
    }
    let sections: u16 = bytes::get16(d, coff + 2, false);
    let opt_size: u16 = bytes::get16(d, coff + 16, false);
    if sections == 0 || sections > 96 {
        return Outcome::reject(
            text::cat3(
                "the COFF header declares ",
                text::decimal(sections as u64).as_str(),
                " sections",
            ).as_str(),
        );
    }
    if opt_size > 4096 {
        return Outcome::reject(
            text::cat3(
                "the optional header is ",
                text::decimal(opt_size as u64).as_str(),
                " bytes",
            ).as_str(),
        );
    }
    let table: usize = coff + 20 + opt_size as usize;
    if table + 40 * sections as usize > d.len() {
        let length: usize = if table <= d.len() {
            table
        } else {
            coff + 20
        };
        return Outcome::partial(
            length as u64,
            "the section table extends past the available data; truncated",
        ).truncated();
    }
    conclude(d, lfanew)
}

/// A rejection claims no length, a complete file is all there, and a damaged
/// one claims no more than was there unless it states its own size.
pub proof fn is_sound(d: Seq<u8>)
    ensures
        verdict(d).sound_for(d.len() as int),
{
}

} // verus!
