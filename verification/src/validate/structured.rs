//! Formats whose header states, or implies, exactly where the file ends:
//! RTF, TIFF, EVTX, registry hives, PSD and ELF.
//!
//! None has a footer and none needs decoding. Each carries enough in its
//! fields to compute a length: a brace depth, a strip table, a chunk count, a
//! bin size, a geometry, a section table.

use vstd::prelude::*;
use vstd::slice::*;
use crate::bytes;
use crate::text;
use super::{Outcome, Verdict};

verus! {

broadcast use bytes::slice_fits;

// ---------------------------------------------------------------------------
// RTF
// ---------------------------------------------------------------------------

/// The document from `i` on, `depth` groups being open, `groups` opened and
/// the last brace ending at `brace`. A backslash takes the character after it
/// along, whatever it is. A document that never closes is justified up to its
/// last brace.
pub open spec fn rtf_from(d: Seq<u8>, i: int, depth: int, groups: int, brace: int) -> Verdict
    decreases d.len() + 1 - i,
{
    if i < 0 || i >= d.len() {
        Verdict::partial(
            brace,
            "the outermost group never closes; "@ + text::dec(depth) + " still open"@,
        ).truncated()
    } else if d[i] == 0x5C {
        rtf_from(d, i + 2, depth, groups, brace)
    } else if d[i] == 0x7B {
        rtf_from(d, i + 1, depth + 1, groups + 1, i + 1)
    } else if d[i] == 0x7D {
        if depth <= 1 {
            Verdict::valid(i + 1).with("version"@, text::dec(d[5] - 0x30)).with(
                "groups"@,
                text::dec(groups),
            )
        } else {
            rtf_from(d, i + 1, depth - 1, groups, i + 1)
        }
    } else {
        rtf_from(d, i + 1, depth, groups, brace)
    }
}

/// `{\rtf`.
pub open spec fn rtf_head() -> Seq<u8> {
    seq![0x7Bu8, 0x5C, 0x72, 0x74, 0x66]
}

/// A document is one brace group, so the file ends at the brace that closes
/// the first one. Escaped braces do not count.
pub open spec fn rtf_verdict(d: Seq<u8>) -> Verdict {
    if d.len() < 6 {
        Verdict::reject("shorter than an RTF header"@).cut_if(bytes::agrees(d, rtf_head(), 0))
    } else if !bytes::begins(d, rtf_head()) {
        Verdict::reject("does not begin with {\\rtf"@)
    } else if d[5] < 0x30 || d[5] > 0x39 {
        Verdict::reject("no version digit after {\\rtf"@)
    } else {
        rtf_from(d, 0, 0, 0, 0)
    }
}

/// RTF: the file ends at the brace that closes the document.
pub fn validate_rtf(d: &[u8]) -> (r: Outcome)
    ensures
        r@ == rtf_verdict(d@),
{
    let head: [u8; 5] = [0x7B, 0x5C, 0x72, 0x74, 0x66];
    assert(head@ =~= rtf_head());
    if d.len() < 6 {
        return Outcome::reject("shorter than an RTF header").cut_if(
            bytes::agrees_at(d, &head, 0),
        );
    }
    if !bytes::stands_at(d, &head, 0) {
        return Outcome::reject("does not begin with {\\rtf");
    }
    if d[5] < 0x30 || d[5] > 0x39 {
        return Outcome::reject("no version digit after {\\rtf");
    }
    assert(d@[0] == 0x7B) by {
        assert(d@.subrange(0, 5)[0] == rtf_head()[0]);
    }
    let mut depth: u64 = 0;
    let mut groups: u64 = 0;
    let mut brace: usize = 0;
    let mut i: usize = 0;
    while i < d.len()
        invariant
            i <= d@.len() + 1,
            d@.len() >= 6,
            d@[0] == 0x7B,
            0x30 <= d@[5] <= 0x39,
            depth <= groups <= i,
            i == 0 ==> depth == 0,
            i > 0 ==> depth >= 1,
            rtf_from(d@, 0, 0, 0, 0) == rtf_from(
                d@,
                i as int,
                depth as int,
                groups as int,
                brace as int,
            ),
            rtf_verdict(d@) == rtf_from(d@, 0, 0, 0, 0),
        decreases d@.len() + 1 - i,
    {
        let b: u8 = d[i];
        if b == 0x5C {
            if i + 1 >= d.len() {
                // Nothing is left to escape.
                i = d.len();
                assert(rtf_from(d@, i + 1, depth as int, groups as int, brace as int) == rtf_from(
                    d@,
                    i as int,
                    depth as int,
                    groups as int,
                    brace as int,
                ));
                continue;
            }
            i = i + 2;
            continue;
        }
        if b == 0x7B {
            depth += 1;
            groups += 1;
            brace = i + 1;
        } else if b == 0x7D {
            depth -= 1;
            brace = i + 1;
            if depth == 0 {
                return Outcome::valid((i + 1) as u64).with("version", d[5] - 0x30).with(
                    "groups",
                    groups,
                );
            }
        }
        i += 1;
    }
    Outcome::partial(
        brace as u64,
        text::cat3(
            "the outermost group never closes; ",
            text::decimal(depth).as_str(),
            " still open",
        ).as_str(),
    ).truncated()
}

// ---------------------------------------------------------------------------
// EVTX
// ---------------------------------------------------------------------------

/// `ElfFile` and a zero.
pub open spec fn evtx_head() -> Seq<u8> {
    seq![0x45u8, 0x6C, 0x66, 0x46, 0x69, 0x6C, 0x65, 0]
}

/// A 4096-byte header followed by fixed 64 KiB chunks, and the header says how
/// many.
pub open spec fn evtx_verdict(d: Seq<u8>) -> Verdict {
    let header_size = bytes::u32_le(d, 32);
    let minor = bytes::u16_le(d, 36);
    let major = bytes::u16_le(d, 38);
    let block = bytes::u16_le(d, 40);
    let chunks = bytes::u16_le(d, 42);
    let total = 4096 + chunks * 65536;
    if d.len() < 128 {
        Verdict::reject("shorter than an EVTX file header"@).cut_if(bytes::agrees(d, evtx_head(), 0))
    } else if !bytes::begins(d, evtx_head()) {
        Verdict::reject("signature mismatch"@)
    } else if header_size != 128 {
        Verdict::reject("the header size field is "@ + text::dec(header_size) + ", not 128"@)
    } else if major != 3 {
        Verdict::reject("major version "@ + text::dec(major) + " is not 3"@)
    } else if block != 4096 {
        Verdict::reject("the header block size is "@ + text::dec(block) + ", not 4096"@)
    } else if chunks == 0 {
        Verdict::reject("the header declares no chunks"@)
    } else {
        (if total > d.len() {
            Verdict::partial(
                total,
                "the header declares "@ + text::dec(chunks) + " chunk(s) = "@ + text::dec(total)
                    + " bytes, but only "@ + text::dec(d.len() as int) + " are available"@,
            ).established().truncated()
        } else {
            Verdict::valid(total)
        }).with("version"@, text::dec(major) + "."@ + text::dec(minor)).with(
            "chunks"@,
            text::dec(chunks),
        )
    }
}

/// Windows event log: the header plus its chunks.
pub fn validate_evtx(d: &[u8]) -> (r: Outcome)
    ensures
        r@ == evtx_verdict(d@),
{
    let head: [u8; 8] = [0x45, 0x6C, 0x66, 0x46, 0x69, 0x6C, 0x65, 0];
    assert(head@ =~= evtx_head());
    if d.len() < 128 {
        return Outcome::reject("shorter than an EVTX file header").cut_if(
            bytes::agrees_at(d, &head, 0),
        );
    }
    if !bytes::stands_at(d, &head, 0) {
        return Outcome::reject("signature mismatch");
    }
    let header_size: u32 = bytes::get32(d, 32, false);
    let minor: u16 = bytes::get16(d, 36, false);
    let major: u16 = bytes::get16(d, 38, false);
    let block: u16 = bytes::get16(d, 40, false);
    let chunks: u64 = bytes::get16(d, 42, false) as u64;
    if header_size != 128 {
        return Outcome::reject(
            text::cat3(
                "the header size field is ",
                text::decimal(header_size as u64).as_str(),
                ", not 128",
            ).as_str(),
        );
    }
    if major != 3 {
        return Outcome::reject(
            text::cat3("major version ", text::decimal(major as u64).as_str(), " is not 3").as_str(),
        );
    }
    if block != 4096 {
        return Outcome::reject(
            text::cat3(
                "the header block size is ",
                text::decimal(block as u64).as_str(),
                ", not 4096",
            ).as_str(),
        );
    }
    if chunks == 0 {
        return Outcome::reject("the header declares no chunks");
    }
    let total: u64 = 4096 + chunks * 65536;
    let out = if total > d.len() as u64 {
        Outcome::partial(
            total,
            text::cat7(
                "the header declares ",
                text::decimal(chunks).as_str(),
                " chunk(s) = ",
                text::decimal(total).as_str(),
                " bytes, but only ",
                text::decimal(d.len() as u64).as_str(),
                " are available",
            ).as_str(),
        ).established().truncated()
    } else {
        Outcome::valid(total)
    };
    out.with(
        "version",
        text::cat3(
            text::decimal(major as u64).as_str(),
            ".",
            text::decimal(minor as u64).as_str(),
        ),
    ).with("chunks", chunks)
}

// ---------------------------------------------------------------------------
// Registry hives
// ---------------------------------------------------------------------------

/// `regf`.
pub open spec fn hive_head() -> Seq<u8> {
    seq![0x72u8, 0x65, 0x67, 0x66]
}

/// A 4096-byte base block, then the bins, whose size it states.
pub open spec fn hive_verdict(d: Seq<u8>) -> Verdict {
    let major = bytes::u32_le(d, 20);
    let file_type = bytes::u32_le(d, 28);
    let file_format = bytes::u32_le(d, 32);
    let bins = bytes::u32_le(d, 40);
    let total = 4096 + bins;
    if d.len() < 48 {
        Verdict::reject("shorter than a hive base block"@).cut_if(bytes::agrees(d, hive_head(), 0))
    } else if !bytes::begins(d, hive_head()) {
        Verdict::reject("signature mismatch"@)
    } else if major != 1 {
        Verdict::reject("major version "@ + text::dec(major) + " is not 1"@)
    } else if file_format != 1 {
        Verdict::reject("the file format field is not 1 (direct memory load)"@)
    } else if file_type > 1 {
        Verdict::reject(
            "file type "@ + text::dec(file_type) + " is not a primary or log hive"@,
        )
    } else if bins == 0 || bins % 4096 != 0 {
        Verdict::reject(
            "the hive bins size is "@ + text::dec(bins)
                + ", which is not a non-zero multiple of 4096"@,
        )
    } else {
        (if total > d.len() {
            Verdict::partial(
                total,
                "the base block declares "@ + text::dec(total) + " bytes but only "@ + text::dec(
                    d.len() as int,
                ) + " are available"@,
            ).established().truncated()
        } else {
            Verdict::valid(total)
        }).with("hive_bins_bytes"@, text::dec(bins)).with(
            "sequences_match"@,
            text::yes_no(bytes::u32_le(d, 4) == bytes::u32_le(d, 8)),
        )
    }
}

/// Registry hive: the base block plus its bins.
pub fn validate_reg_hive(d: &[u8]) -> (r: Outcome)
    ensures
        r@ == hive_verdict(d@),
{
    let head: [u8; 4] = [0x72, 0x65, 0x67, 0x66];
    assert(head@ =~= hive_head());
    if d.len() < 48 {
        return Outcome::reject("shorter than a hive base block").cut_if(
            bytes::agrees_at(d, &head, 0),
        );
    }
    if !bytes::stands_at(d, &head, 0) {
        return Outcome::reject("signature mismatch");
    }
    let primary: u32 = bytes::get32(d, 4, false);
    let secondary: u32 = bytes::get32(d, 8, false);
    let major: u32 = bytes::get32(d, 20, false);
    let file_type: u32 = bytes::get32(d, 28, false);
    let file_format: u32 = bytes::get32(d, 32, false);
    let bins: u64 = bytes::get32(d, 40, false) as u64;
    if major != 1 {
        return Outcome::reject(
            text::cat3("major version ", text::decimal(major as u64).as_str(), " is not 1").as_str(),
        );
    }
    if file_format != 1 {
        return Outcome::reject("the file format field is not 1 (direct memory load)");
    }
    if file_type > 1 {
        return Outcome::reject(
            text::cat3(
                "file type ",
                text::decimal(file_type as u64).as_str(),
                " is not a primary or log hive",
            ).as_str(),
        );
    }
    if bins == 0 || bins % 4096 != 0 {
        return Outcome::reject(
            text::cat3(
                "the hive bins size is ",
                text::decimal(bins).as_str(),
                ", which is not a non-zero multiple of 4096",
            ).as_str(),
        );
    }
    let total: u64 = 4096 + bins;
    let out = if total > d.len() as u64 {
        Outcome::partial(
            total,
            text::cat5(
                "the base block declares ",
                text::decimal(total).as_str(),
                " bytes but only ",
                text::decimal(d.len() as u64).as_str(),
                " are available",
            ).as_str(),
        ).established().truncated()
    } else {
        Outcome::valid(total)
    };
    out.with("hive_bins_bytes", bins).with("sequences_match", primary == secondary)
}

// ---------------------------------------------------------------------------
// PSD
// ---------------------------------------------------------------------------

/// `8BPS`.
pub open spec fn psd_head() -> Seq<u8> {
    seq![0x38u8, 0x42, 0x50, 0x53]
}

/// The name of the `i`-th length-prefixed section.
pub open spec fn psd_section(i: int) -> Seq<char> {
    if i == 0 {
        "colour mode data"@
    } else if i == 1 {
        "image resources"@
    } else {
        "layer and mask info"@
    }
}

/// The three length-prefixed sections, from the `i`-th on at `at`: where they
/// end, or what stopped the walk.
pub open spec fn psd_sections(d: Seq<u8>, i: int, at: int) -> Result<int, Verdict>
    decreases 3 - i,
{
    if i >= 3 {
        Ok(at)
    } else if !bytes::fits(d, at, 4) {
        Err(
            Verdict::partial(
                at,
                "truncated before the "@ + psd_section(i) + " section length"@,
            ).truncated(),
        )
    } else if at + 4 + bytes::u32_be(d, at) > d.len() {
        Err(
            Verdict::partial(
                at,
                "the "@ + psd_section(i) + " section runs past the available data"@,
            ).truncated(),
        )
    } else {
        psd_sections(d, i + 1, at + 4 + bytes::u32_be(d, at))
    }
}

/// The bytes raw image data takes.
pub open spec fn psd_pixels(width: int, height: int, channels: int, depth: int) -> int {
    bytes::capped(width * height * channels * ((depth + 7) / 8))
}

/// Three length-prefixed sections, then image data whose size the geometry
/// gives when it is stored raw. Where it is compressed its length needs a
/// row-table walk, and none is claimed.
pub open spec fn psd_verdict(d: Seq<u8>) -> Verdict {
    let version = bytes::u16_be(d, 4);
    let channels = bytes::u16_be(d, 12);
    let height = bytes::u32_be(d, 14);
    let width = bytes::u32_be(d, 18);
    let depth = bytes::u16_be(d, 22);
    let mode = bytes::u16_be(d, 24);
    if d.len() < 34 {
        Verdict::reject("shorter than a PSD header"@).cut_if(bytes::agrees(d, psd_head(), 0))
    } else if !bytes::begins(d, psd_head()) {
        Verdict::reject("signature mismatch"@)
    } else if version != 1 && version != 2 {
        Verdict::reject(
            "version "@ + text::dec(version) + " is neither PSD (1) nor PSB (2)"@,
        )
    } else if exists|i: int| 6 <= i < 12 && d[i] != 0 {
        Verdict::reject("the reserved bytes in the header are non-zero"@)
    } else if channels < 1 || channels > 56 {
        Verdict::reject(text::dec(channels) + " channels is outside the 1..56 range"@)
    } else if width == 0 || height == 0 {
        Verdict::reject("a dimension is zero"@)
    } else if depth != 1 && depth != 8 && depth != 16 && depth != 32 {
        Verdict::reject(text::dec(depth) + " bits per channel is not a defined depth"@)
    } else if mode > 15 {
        Verdict::reject("colour mode "@ + text::dec(mode) + " is not defined"@)
    } else {
        match psd_sections(d, 0, 26) {
            Err(v) => v,
            Ok(at) => if !bytes::fits(d, at, 2) {
                Verdict::partial(at, "truncated before the compression method"@).truncated()
            } else {
                let compression = bytes::u16_be(d, at);
                let total = bytes::capped(at + 2 + psd_pixels(width, height, channels, depth));
                (if compression != 0 {
                    Verdict::partial(
                        at + 2,
                        "the header is intact but the image data uses compression method "@
                            + text::dec(compression)
                            + ", whose length needs a row-table walk; this length covers the headers only"@,
                    )
                } else if total > d.len() {
                    Verdict::partial(
                        total,
                        "the geometry needs "@ + text::dec(total) + " bytes but only "@ + text::dec(
                            d.len() as int,
                        ) + " are available"@,
                    ).established().truncated()
                } else {
                    Verdict::valid(total)
                }).with("width"@, text::dec(width)).with("height"@, text::dec(height)).with(
                    "channels"@,
                    text::dec(channels),
                ).with("depth"@, text::dec(depth)).with("compression"@, text::dec(compression))
            },
        }
    }
}

fn psd_section_name(i: usize) -> (r: &'static str)
    ensures
        r@ == psd_section(i as int),
{
    if i == 0 {
        "colour mode data"
    } else if i == 1 {
        "image resources"
    } else {
        "layer and mask info"
    }
}

fn raw_pixels(width: u64, height: u64, channels: u64, depth: u64) -> (r: u64)
    requires
        width <= 0xFFFF_FFFF,
        height <= 0xFFFF_FFFF,
        channels <= 56,
        depth <= 32,
    ensures
        r == psd_pixels(width as int, height as int, channels as int, depth as int),
{
    let per: u64 = (depth + 7) / 8;
    assert(0 <= width * height <= 0xFFFF_FFFF * 0xFFFF_FFFF) by (nonlinear_arith)
        requires
            width <= 0xFFFF_FFFF,
            height <= 0xFFFF_FFFF,
    ;
    let area: u128 = width as u128 * height as u128;
    assert(area * channels <= 0xFFFF_FFFF * 0xFFFF_FFFF * 56) by (nonlinear_arith)
        requires
            area <= 0xFFFF_FFFF * 0xFFFF_FFFF,
            channels <= 56,
    ;
    let samples: u128 = area * channels as u128;
    assert(samples * per <= 0xFFFF_FFFF * 0xFFFF_FFFF * 56 * 5) by (nonlinear_arith)
        requires
            samples <= 0xFFFF_FFFF * 0xFFFF_FFFF * 56,
            per <= 5,
    ;
    let all: u128 = samples * per as u128;
    if all > 0xFFFF_FFFF_FFFF_FFFFu128 {
        0xFFFF_FFFF_FFFF_FFFFu64
    } else {
        all as u64
    }
}

/// Photoshop: headers, then raw image data.
pub fn validate_psd(d: &[u8]) -> (r: Outcome)
    ensures
        r@ == psd_verdict(d@),
{
    let head: [u8; 4] = [0x38, 0x42, 0x50, 0x53];
    assert(head@ =~= psd_head());
    if d.len() < 34 {
        return Outcome::reject("shorter than a PSD header").cut_if(
            bytes::agrees_at(d, &head, 0),
        );
    }
    if !bytes::stands_at(d, &head, 0) {
        return Outcome::reject("signature mismatch");
    }
    let version: u16 = bytes::get16(d, 4, true);
    if version != 1 && version != 2 {
        return Outcome::reject(
            text::cat3(
                "version ",
                text::decimal(version as u64).as_str(),
                " is neither PSD (1) nor PSB (2)",
            ).as_str(),
        );
    }
    // Six reserved bytes that every writer leaves zero.
    if d[6] != 0 || d[7] != 0 || d[8] != 0 || d[9] != 0 || d[10] != 0 || d[11] != 0 {
        return Outcome::reject("the reserved bytes in the header are non-zero");
    }
    let channels: u64 = bytes::get16(d, 12, true) as u64;
    let height: u64 = bytes::get32(d, 14, true) as u64;
    let width: u64 = bytes::get32(d, 18, true) as u64;
    let depth: u64 = bytes::get16(d, 22, true) as u64;
    let mode: u64 = bytes::get16(d, 24, true) as u64;
    if channels < 1 || channels > 56 {
        return Outcome::reject(
            text::cat2(
                text::decimal(channels).as_str(),
                " channels is outside the 1..56 range",
            ).as_str(),
        );
    }
    if width == 0 || height == 0 {
        return Outcome::reject("a dimension is zero");
    }
    if depth != 1 && depth != 8 && depth != 16 && depth != 32 {
        return Outcome::reject(
            text::cat2(
                text::decimal(depth).as_str(),
                " bits per channel is not a defined depth",
            ).as_str(),
        );
    }
    if mode > 15 {
        return Outcome::reject(
            text::cat3("colour mode ", text::decimal(mode).as_str(), " is not defined").as_str(),
        );
    }
    let mut at: usize = 26;
    let mut i: usize = 0;
    let ghost whole = psd_sections(d@, 0, 26);
    while i < 3
        invariant
            i <= 3,
            at <= d@.len(),
            whole == psd_sections(d@, 0, 26),
            whole == psd_sections(d@, i as int, at as int),
            whole matches Err(v) ==> psd_verdict(d@) == v,
        decreases 3 - i,
    {
        let n: u32 = match bytes::be32(d, at) {
            Some(n) => n,
            None => {
                return Outcome::partial(
                    at as u64,
                    text::cat3("truncated before the ", psd_section_name(i), " section length").as_str(),
                ).truncated();
            },
        };
        if n as u64 > (d.len() - at - 4) as u64 {
            return Outcome::partial(
                at as u64,
                text::cat3(
                    "the ",
                    psd_section_name(i),
                    " section runs past the available data",
                ).as_str(),
            ).truncated();
        }
        at = at + 4 + n as usize;
        i += 1;
    }
    let compression: u16 = match bytes::be16(d, at) {
        Some(c) => c,
        None => {
            return Outcome::partial(
                at as u64,
                "truncated before the compression method",
            ).truncated();
        },
    };
    let headers: u64 = at as u64 + 2;
    let total: u64 = bytes::add_capped(headers, raw_pixels(width, height, channels, depth));
    let out = if compression != 0 {
        Outcome::partial(
            headers,
            text::cat3(
                "the header is intact but the image data uses compression method ",
                text::decimal(compression as u64).as_str(),
                ", whose length needs a row-table walk; this length covers the headers only",
            ).as_str(),
        )
    } else if total > d.len() as u64 {
        Outcome::partial(
            total,
            text::cat5(
                "the geometry needs ",
                text::decimal(total).as_str(),
                " bytes but only ",
                text::decimal(d.len() as u64).as_str(),
                " are available",
            ).as_str(),
        ).established().truncated()
    } else {
        Outcome::valid(total)
    };
    out.with("width", width).with("height", height).with("channels", channels).with(
        "depth",
        depth,
    ).with("compression", compression)
}

// ---------------------------------------------------------------------------
// ELF
// ---------------------------------------------------------------------------

/// `7F`, then `ELF`.
pub open spec fn elf_head() -> Seq<u8> {
    seq![0x7Fu8, 0x45, 0x4C, 0x46]
}

/// An address-sized field: eight bytes in a 64-bit file, four in a 32-bit one.
pub open spec fn elf_word(d: Seq<u8>, at: int, wide: bool, big: bool) -> Option<int> {
    if wide {
        if bytes::fits(d, at, 8) {
            Some(bytes::u64_in(d, at, big))
        } else {
            None
        }
    } else if bytes::fits(d, at, 4) {
        Some(bytes::u32_in(d, at, big))
    } else {
        None
    }
}

/// A field that counts as zero where it is past the data.
pub open spec fn elf_word_or_zero(d: Seq<u8>, at: int, wide: bool, big: bool) -> int {
    match elf_word(d, at, wide, big) {
        Some(v) => v,
        None => 0,
    }
}

/// A two-byte field that counts as zero where it is past the data.
pub open spec fn elf_half_or_zero(d: Seq<u8>, at: int, big: bool) -> int {
    if bytes::fits(d, at, 2) {
        bytes::u16_in(d, at, big)
    } else {
        0
    }
}

/// Where a header table ends.
pub open spec fn elf_table_end(off: int, n: int, size: int) -> int {
    bytes::capped(off + n * size)
}

/// How far the segments from the `i`-th on reach; the first entry past the
/// data ends the table.
pub open spec fn elf_segments(
    d: Seq<u8>,
    wide: bool,
    big: bool,
    off: int,
    size: int,
    n: int,
    i: int,
    end: int,
) -> int
    decreases n - i,
{
    let at = off + i * size;
    if i >= n {
        end
    } else {
        match (
            elf_word(d, at + (if wide { 8int } else { 4int }), wide, big),
            elf_word(d, at + (if wide { 32int } else { 16int }), wide, big),
        ) {
            (Some(o), Some(s)) => elf_segments(
                d,
                wide,
                big,
                off,
                size,
                n,
                i + 1,
                bytes::larger(end, bytes::capped(o + s)),
            ),
            _ => end,
        }
    }
}

/// How far the sections from the `i`-th on reach. One that occupies no file
/// space (type 8) does not count.
pub open spec fn elf_sections(
    d: Seq<u8>,
    wide: bool,
    big: bool,
    off: int,
    size: int,
    n: int,
    i: int,
    end: int,
) -> int
    decreases n - i,
{
    let at = off + i * size;
    if i >= n || !bytes::fits(d, at + 4, 4) {
        end
    } else if bytes::u32_in(d, at + 4, big) == 8 {
        elf_sections(d, wide, big, off, size, n, i + 1, end)
    } else {
        match (
            elf_word(d, at + (if wide { 24int } else { 16int }), wide, big),
            elf_word(d, at + (if wide { 32int } else { 20int }), wide, big),
        ) {
            (Some(o), Some(s)) => elf_sections(
                d,
                wide,
                big,
                off,
                size,
                n,
                i + 1,
                bytes::larger(end, bytes::capped(o + s)),
            ),
            _ => end,
        }
    }
}

/// `n`, but no more than `most`.
pub open spec fn at_most(n: int, most: int) -> int {
    if n <= most {
        n
    } else {
        most
    }
}

/// How far the headers, segments and sections of an ELF file reach.
pub open spec fn elf_end(d: Seq<u8>, wide: bool, big: bool) -> int {
    let tail = if wide {
        52int
    } else {
        40int
    };
    let phoff = elf_word_or_zero(d, if wide { 32 } else { 28 }, wide, big);
    let shoff = elf_word_or_zero(d, if wide { 40 } else { 32 }, wide, big);
    let phsize = elf_half_or_zero(d, tail + 2, big);
    let phnum = elf_half_or_zero(d, tail + 4, big);
    let shsize = elf_half_or_zero(d, tail + 6, big);
    let shnum = elf_half_or_zero(d, tail + 8, big);
    let header = if wide {
        64int
    } else {
        52int
    };
    let e1 = if phnum > 0 {
        bytes::larger(header, elf_table_end(phoff, phnum, phsize))
    } else {
        header
    };
    let e2 = if shnum > 0 {
        bytes::larger(e1, elf_table_end(shoff, shnum, shsize))
    } else {
        e1
    };
    let e3 = elf_segments(d, wide, big, phoff, phsize, at_most(phnum, 256), 0, e2);
    elf_sections(d, wide, big, shoff, shsize, at_most(shnum, 512), 0, e3)
}

/// The file ends past the furthest of its program headers, section headers,
/// and the segments and sections they point at.
pub open spec fn elf_verdict(d: Seq<u8>) -> Verdict {
    let class = d[4] as int;
    let data = d[5] as int;
    let version = d[6] as int;
    let big = data == 2;
    let wide = class == 2;
    let e_type = bytes::u16_in(d, 16, big);
    let tail = if wide {
        52int
    } else {
        40int
    };
    let phsize = elf_half_or_zero(d, tail + 2, big);
    let phnum = elf_half_or_zero(d, tail + 4, big);
    let shnum = elf_half_or_zero(d, tail + 8, big);
    let end = elf_end(d, wide, big);
    if d.len() < 24 {
        Verdict::reject("shorter than an ELF identification header"@).cut_if(bytes::agrees(d, elf_head(), 0))
    } else if !bytes::begins(d, elf_head()) {
        Verdict::reject("signature mismatch"@)
    } else if class != 1 && class != 2 {
        Verdict::reject("EI_CLASS is "@ + text::dec(class) + ", neither 32- nor 64-bit"@)
    } else if data != 1 && data != 2 {
        Verdict::reject("EI_DATA is "@ + text::dec(data) + ", neither endianness"@)
    } else if version != 1 {
        Verdict::reject("EI_VERSION is "@ + text::dec(version) + ", not 1"@)
    } else if !(1 <= e_type <= 4) && e_type < 0xFE00 {
        Verdict::reject("e_type "@ + text::dec(e_type) + " is not a defined object type"@)
    } else if phnum > 0 && phsize < (if wide {
        56int
    } else {
        32int
    }) {
        Verdict::reject("the program header entry size is too small for the class"@)
    } else {
        (if end > d.len() {
            Verdict::partial(
                end,
                "the headers reach "@ + text::dec(end) + " but only "@ + text::dec(d.len() as int)
                    + " bytes are available"@,
            ).established().truncated()
        } else {
            Verdict::valid(end)
        }).with("class"@, text::dec(if wide {
            64
        } else {
            32
        })).with("endian"@, if big {
            "big"@
        } else {
            "little"@
        }).with("type"@, text::dec(e_type)).with("segments"@, text::dec(phnum)).with(
            "sections"@,
            text::dec(shnum),
        )
    }
}

fn elf_word_at(d: &[u8], at: u128, wide: bool, big: bool) -> (r: Option<u64>)
    ensures
        match r {
            Some(v) => elf_word(d@, at as int, wide, big) == Some(v as int),
            None => elf_word(d@, at as int, wide, big) is None,
        },
{
    if at > d.len() as u128 {
        return None;
    }
    if wide {
        bytes::read64(d, at as usize, big)
    } else {
        match bytes::read32(d, at as usize, big) {
            Some(v) => Some(v as u64),
            None => None,
        }
    }
}

fn elf_word_zero(d: &[u8], at: u128, wide: bool, big: bool) -> (r: u64)
    ensures
        r == elf_word_or_zero(d@, at as int, wide, big),
{
    match elf_word_at(d, at, wide, big) {
        Some(v) => v,
        None => 0,
    }
}

fn elf_half_zero(d: &[u8], at: usize, big: bool) -> (r: u64)
    ensures
        r == elf_half_or_zero(d@, at as int, big),
        r <= 0xFFFF,
{
    match bytes::read16(d, at, big) {
        Some(v) => v as u64,
        None => 0,
    }
}

/// `off + i * size`.
fn elf_entry(off: u64, i: u64, size: u64) -> (at: u128)
    requires
        i <= 0xFFFF,
        size <= 0xFFFF,
    ensures
        at == off + i * size,
        at <= 0x1_0000_FFFF_FFFF_FFFF,
{
    assert(0 <= i * size <= 0xFFFF * 0xFFFF) by (nonlinear_arith)
        requires
            i <= 0xFFFF,
            size <= 0xFFFF,
    ;
    off as u128 + (i * size) as u128
}

fn segments_end(d: &[u8], wide: bool, big: bool, off: u64, size: u64, n: u64, start: u64) -> (r: u64)
    requires
        n <= 0xFFFF,
        size <= 0xFFFF,
    ensures
        r == elf_segments(
            d@,
            wide,
            big,
            off as int,
            size as int,
            n as int,
            0,
            start as int,
        ),
{
    let mut end: u64 = start;
    let mut i: u64 = 0;
    let ghost whole = elf_segments(
        d@,
        wide,
        big,
        off as int,
        size as int,
        n as int,
        0,
        start as int,
    );
    while i < n
        invariant
            i <= n <= 0xFFFF,
            size <= 0xFFFF,
            whole == elf_segments(
                d@,
                wide,
                big,
                off as int,
                size as int,
                n as int,
                0,
                start as int,
            ),
            whole == elf_segments(
                d@,
                wide,
                big,
                off as int,
                size as int,
                n as int,
                i as int,
                end as int,
            ),
        decreases n - i,
    {
        let at: u128 = elf_entry(off, i, size);
        let o = elf_word_at(d, at + (if wide {
            8
        } else {
            4
        }), wide, big);
        let s = elf_word_at(d, at + (if wide {
            32
        } else {
            16
        }), wide, big);
        match (o, s) {
            (Some(o), Some(s)) => {
                end = bytes::max64(end, bytes::add_capped(o, s));
            },
            _ => {
                return end;
            },
        }
        i += 1;
    }
    end
}

fn sections_end(d: &[u8], wide: bool, big: bool, off: u64, size: u64, n: u64, start: u64) -> (r: u64)
    requires
        n <= 0xFFFF,
        size <= 0xFFFF,
    ensures
        r == elf_sections(
            d@,
            wide,
            big,
            off as int,
            size as int,
            n as int,
            0,
            start as int,
        ),
{
    let mut end: u64 = start;
    let mut i: u64 = 0;
    let ghost whole = elf_sections(
        d@,
        wide,
        big,
        off as int,
        size as int,
        n as int,
        0,
        start as int,
    );
    while i < n
        invariant
            i <= n <= 0xFFFF,
            size <= 0xFFFF,
            whole == elf_sections(
                d@,
                wide,
                big,
                off as int,
                size as int,
                n as int,
                0,
                start as int,
            ),
            whole == elf_sections(
                d@,
                wide,
                big,
                off as int,
                size as int,
                n as int,
                i as int,
                end as int,
            ),
        decreases n - i,
    {
        let at: u128 = elf_entry(off, i, size);
        let kind: u64 = match elf_word_at(d, at + 4, false, big) {
            Some(v) => v,
            None => {
                return end;
            },
        };
        if kind != 8 {
            let o = elf_word_at(d, at + (if wide {
                24
            } else {
                16
            }), wide, big);
            let s = elf_word_at(d, at + (if wide {
                32
            } else {
                20
            }), wide, big);
            match (o, s) {
                (Some(o), Some(s)) => {
                    end = bytes::max64(end, bytes::add_capped(o, s));
                },
                _ => {
                    return end;
                },
            }
        }
        i += 1;
    }
    end
}

fn table_end(off: u64, n: u64, size: u64) -> (r: u64)
    requires
        n <= 0xFFFF,
        size <= 0xFFFF,
    ensures
        r == elf_table_end(off as int, n as int, size as int),
{
    assert(0 <= n * size <= 0xFFFF * 0xFFFF) by (nonlinear_arith)
        requires
            n <= 0xFFFF,
            size <= 0xFFFF,
    ;
    bytes::add_capped(off, n * size)
}

fn elf_reach(d: &[u8], wide: bool, big: bool) -> (r: u64)
    ensures
        r == elf_end(d@, wide, big),
{
    let tail: usize = if wide {
        52
    } else {
        40
    };
    let phoff: u64 = elf_word_zero(d, if wide {
        32
    } else {
        28
    }, wide, big);
    let shoff: u64 = elf_word_zero(d, if wide {
        40
    } else {
        32
    }, wide, big);
    let phsize: u64 = elf_half_zero(d, tail + 2, big);
    let phnum: u64 = elf_half_zero(d, tail + 4, big);
    let shsize: u64 = elf_half_zero(d, tail + 6, big);
    let shnum: u64 = elf_half_zero(d, tail + 8, big);
    let mut end: u64 = if wide {
        64
    } else {
        52
    };
    if phnum > 0 {
        end = bytes::max64(end, table_end(phoff, phnum, phsize));
    }
    if shnum > 0 {
        end = bytes::max64(end, table_end(shoff, shnum, shsize));
    }
    let segments: u64 = if phnum <= 256 {
        phnum
    } else {
        256
    };
    let sections: u64 = if shnum <= 512 {
        shnum
    } else {
        512
    };
    end = segments_end(d, wide, big, phoff, phsize, segments, end);
    sections_end(d, wide, big, shoff, shsize, sections, end)
}

/// ELF: the furthest thing its headers point at.
pub fn validate_elf(d: &[u8]) -> (r: Outcome)
    ensures
        r@ == elf_verdict(d@),
{
    let head: [u8; 4] = [0x7F, 0x45, 0x4C, 0x46];
    assert(head@ =~= elf_head());
    if d.len() < 24 {
        return Outcome::reject("shorter than an ELF identification header").cut_if(
            bytes::agrees_at(d, &head, 0),
        );
    }
    if !bytes::stands_at(d, &head, 0) {
        return Outcome::reject("signature mismatch");
    }
    let class: u8 = d[4];
    let data: u8 = d[5];
    let version: u8 = d[6];
    if class != 1 && class != 2 {
        return Outcome::reject(
            text::cat3(
                "EI_CLASS is ",
                text::decimal(class as u64).as_str(),
                ", neither 32- nor 64-bit",
            ).as_str(),
        );
    }
    if data != 1 && data != 2 {
        return Outcome::reject(
            text::cat3(
                "EI_DATA is ",
                text::decimal(data as u64).as_str(),
                ", neither endianness",
            ).as_str(),
        );
    }
    if version != 1 {
        return Outcome::reject(
            text::cat3("EI_VERSION is ", text::decimal(version as u64).as_str(), ", not 1").as_str(),
        );
    }
    let big: bool = data == 2;
    let wide: bool = class == 2;
    let e_type: u64 = bytes::get16(d, 16, big) as u64;
    if !(1 <= e_type && e_type <= 4) && e_type < 0xFE00 {
        return Outcome::reject(
            text::cat3(
                "e_type ",
                text::decimal(e_type).as_str(),
                " is not a defined object type",
            ).as_str(),
        );
    }
    let tail: usize = if wide {
        52
    } else {
        40
    };
    let phsize: u64 = elf_half_zero(d, tail + 2, big);
    let phnum: u64 = elf_half_zero(d, tail + 4, big);
    let shnum: u64 = elf_half_zero(d, tail + 8, big);
    let least: u64 = if wide {
        56
    } else {
        32
    };
    if phnum > 0 && phsize < least {
        return Outcome::reject("the program header entry size is too small for the class");
    }
    let end: u64 = elf_reach(d, wide, big);
    let out = if end > d.len() as u64 {
        Outcome::partial(
            end,
            text::cat5(
                "the headers reach ",
                text::decimal(end).as_str(),
                " but only ",
                text::decimal(d.len() as u64).as_str(),
                " bytes are available",
            ).as_str(),
        ).established().truncated()
    } else {
        Outcome::valid(end)
    };
    let bits: u64 = if wide {
        64
    } else {
        32
    };
    let endian: &'static str = if big {
        "big"
    } else {
        "little"
    };
    out.with("class", bits).with("endian", endian).with("type", e_type).with(
        "segments",
        phnum,
    ).with("sections", shnum)
}

// ---------------------------------------------------------------------------
// TIFF
// ---------------------------------------------------------------------------

/// Bytes per element of a field type. An unknown type counts as zero, which
/// makes it contribute nothing rather than a wild offset.
pub open spec fn type_size(typ: int) -> int {
    if typ == 1 || typ == 2 || typ == 6 || typ == 7 {
        1
    } else if typ == 3 || typ == 8 {
        2
    } else if typ == 4 || typ == 9 || typ == 11 {
        4
    } else if typ == 5 || typ == 10 || typ == 12 {
        8
    } else {
        0
    }
}

/// The `k`-th value of the directory entry at `at`, followed out of line where
/// the entry is too small to hold it. Only the integer types are read.
pub open spec fn tiff_value(d: Seq<u8>, at: int, typ: int, k: int, big: bool) -> Option<int> {
    if (typ != 3 && typ != 4) || !bytes::fits(d, at + 4, 4) {
        None
    } else {
        let unit = type_size(typ);
        let count = bytes::u32_in(d, at + 4, big);
        if k >= count || (unit * count > 4 && !bytes::fits(d, at + 8, 4)) {
            None
        } else {
            let base = if unit * count <= 4 {
                at + 8
            } else {
                bytes::u32_in(d, at + 8, big)
            };
            let pos = base + k * unit;
            if !bytes::fits(d, pos, unit) {
                None
            } else if typ == 3 {
                Some(bytes::u16_in(d, pos, big))
            } else {
                Some(bytes::u32_in(d, pos, big))
            }
        }
    }
}

/// The values of an entry from the `k`-th up to the `n`-th, after `acc`.
pub open spec fn tiff_values(
    d: Seq<u8>,
    at: int,
    typ: int,
    big: bool,
    k: int,
    n: int,
    acc: Seq<int>,
) -> Seq<int>
    decreases n - k,
{
    if k >= n {
        acc
    } else {
        tiff_values(
            d,
            at,
            typ,
            big,
            k + 1,
            n,
            match tiff_value(d, at, typ, k, big) {
                Some(v) => acc.push(v),
                None => acc,
            },
        )
    }
}

/// What the directories have said so far.
#[verifier::ext_equal]
pub struct Directories {
    /// The furthest byte any of them points at.
    pub end: int,
    /// Where the furthest of them itself ends.
    pub own: int,
    pub ifds: int,
    pub entries: int,
    pub width: int,
    pub height: int,
    pub strip_offsets: Seq<int>,
    pub strip_counts: Seq<int>,
    /// Whether the value of the last width entry lies past the data.
    pub width_past: bool,
    /// Whether the value of the last height entry lies past the data.
    pub height_past: bool,
    /// Whether a strip offset lies past the data.
    pub offsets_past: bool,
    /// Whether a strip byte count lies past the data.
    pub counts_past: bool,
}

/// Whether one of the first `n` values of the entry at `at` is an integer that
/// is stored past the data.
pub open spec fn tiff_past(d: Seq<u8>, at: int, typ: int, n: int, big: bool) -> bool {
    let unit = type_size(typ);
    &&& typ == 3 || typ == 4
    &&& unit * bytes::u32_in(d, at + 4, big) > 4
    &&& bytes::u32_in(d, at + 8, big) + unit * n > d.len()
}

/// A value that counts as zero where it cannot be read.
pub open spec fn tiff_first(d: Seq<u8>, at: int, typ: int, big: bool) -> int {
    match tiff_value(d, at, typ, 0, big) {
        Some(v) => v,
        None => 0,
    }
}

/// The directories with the entry at `at` read too. Four bytes or fewer live
/// in the entry; anything larger is stored where its value field points.
pub open spec fn tiff_entry(d: Seq<u8>, big: bool, at: int, s: Directories) -> Directories {
    let tag = bytes::u16_in(d, at, big);
    let typ = bytes::u16_in(d, at + 2, big);
    let n = bytes::u32_in(d, at + 4, big);
    let held = type_size(typ) * n;
    let s1 = Directories {
        entries: s.entries + 1,
        end: if held <= 4 {
            s.end
        } else {
            bytes::larger(s.end, bytes::u32_in(d, at + 8, big) + held)
        },
        ..s
    };
    if tag == 256 {
        Directories {
            width: tiff_first(d, at, typ, big),
            width_past: tiff_past(d, at, typ, 1, big),
            ..s1
        }
    } else if tag == 257 {
        Directories {
            height: tiff_first(d, at, typ, big),
            height_past: tiff_past(d, at, typ, 1, big),
            ..s1
        }
    } else if tag == 273 {
        Directories {
            strip_offsets: tiff_values(d, at, typ, big, 0, at_most(n, 4096), s.strip_offsets),
            offsets_past: s.offsets_past || tiff_past(d, at, typ, at_most(n, 4096), big),
            ..s1
        }
    } else if tag == 279 {
        Directories {
            strip_counts: tiff_values(d, at, typ, big, 0, at_most(n, 4096), s.strip_counts),
            counts_past: s.counts_past || tiff_past(d, at, typ, at_most(n, 4096), big),
            ..s1
        }
    } else {
        s1
    }
}

/// The entries of the directory at `ifd` from the `i`-th on.
pub open spec fn tiff_entries(
    d: Seq<u8>,
    big: bool,
    ifd: int,
    count: int,
    i: int,
    s: Directories,
) -> Directories
    decreases count - i,
{
    if i >= count {
        s
    } else {
        tiff_entries(d, big, ifd, count, i + 1, tiff_entry(d, big, ifd + 2 + 12 * i, s))
    }
}

/// How far the file is known to reach: as far as the directories point, or as
/// they themselves do where that is past the data.
pub open spec fn tiff_extent(d: Seq<u8>, s: Directories) -> int {
    if s.end <= d.len() {
        s.end
    } else {
        s.own
    }
}

/// A directory chain that the data ends in the middle of.
pub open spec fn tiff_truncated(d: Seq<u8>, s: Directories, why: Seq<char>) -> Verdict {
    if s.ifds > 0 {
        Verdict::partial(tiff_extent(d, s), "truncated: "@ + why).truncated()
    } else {
        Verdict::reject(why + ", before any directory was read"@).truncated()
    }
}

/// A directory chain that cannot be one.
pub open spec fn tiff_broken(d: Seq<u8>, s: Directories, why: Seq<char>) -> Verdict {
    if s.ifds > 0 {
        Verdict::partial(tiff_extent(d, s), "the directory chain broke: "@ + why)
    } else {
        Verdict::reject("the directory chain broke immediately: "@ + why)
    }
}

/// The directory chain from the one at `ifd` on, `round` having been read. At
/// most 64 are, so that a chain that loops ends.
pub open spec fn tiff_chain(d: Seq<u8>, big: bool, ifd: int, round: int, s: Directories) -> Result<
    Directories,
    Verdict,
>
    decreases 64 - round,
{
    if round >= 64 || ifd == 0 {
        Ok(s)
    } else if !bytes::fits(d, ifd, 2) {
        Err(tiff_truncated(d, s, "an IFD is past the available data"@))
    } else {
        let count = bytes::u16_in(d, ifd, big);
        let ifd_end = ifd + 2 + 12 * count + 4;
        if count == 0 || count > 512 {
            Err(tiff_broken(d, s, "an IFD declares an implausible entry count"@))
        } else if ifd_end > d.len() {
            Err(tiff_truncated(d, s, "an IFD runs past the available data"@))
        } else {
            let s1 = tiff_entries(
                d,
                big,
                ifd,
                count,
                0,
                Directories {
                    end: bytes::larger(s.end, ifd_end),
                    own: bytes::larger(s.own, ifd_end),
                    ..s
                },
            );
            tiff_chain(
                d,
                big,
                bytes::u32_in(d, ifd_end - 4, big),
                round + 1,
                Directories { ifds: s1.ifds + 1, ..s1 },
            )
        }
    }
}

/// How far the strips from the `i`-th on reach.
pub open spec fn tiff_strips(offsets: Seq<int>, counts: Seq<int>, i: int, end: int) -> int
    decreases offsets.len() - i,
{
    if i < 0 || i >= offsets.len() {
        end
    } else {
        tiff_strips(offsets, counts, i + 1, bytes::larger(end, offsets[i] + counts[i]))
    }
}

/// What the directories of a whole chain come to. Where what is missing has an
/// entry that points past the data, it may be there.
pub open spec fn tiff_concluded(d: Seq<u8>, big: bool, s: Directories) -> Verdict {
    if s.width == 0 || s.height == 0 {
        Verdict::reject("no usable ImageWidth and ImageLength tags"@).cut_if(
            (s.width != 0 || s.width_past) && (s.height != 0 || s.height_past),
        )
    } else if s.strip_offsets.len() == 0 {
        Verdict::partial(
            tiff_extent(d, s),
            "the directories are intact but no strip offsets were found, so the image data's extent is unknown; length covers the directories only"@,
        ).cut_if(s.offsets_past).with("width"@, text::dec(s.width)).with("height"@, text::dec(s.height)).with(
            "ifds"@,
            text::dec(s.ifds),
        )
    } else if s.strip_offsets.len() != s.strip_counts.len() {
        Verdict::partial(
            tiff_extent(d, s),
            text::dec(s.strip_offsets.len() as int) + " strip offsets against "@ + text::dec(
                s.strip_counts.len() as int,
            ) + " byte counts; the image data's extent cannot be resolved"@,
        ).cut_if(s.offsets_past || s.counts_past).with("width"@, text::dec(s.width)).with("height"@, text::dec(s.height))
    } else {
        let end = tiff_strips(s.strip_offsets, s.strip_counts, 0, s.end);
        (if end > d.len() {
            Verdict::partial(
                end,
                "the directories reach "@ + text::dec(end) + " but only "@ + text::dec(
                    d.len() as int,
                ) + " bytes are available"@,
            ).established().truncated()
        } else {
            Verdict::valid(end)
        }).with("byte_order"@, if big {
            "MM"@
        } else {
            "II"@
        }).with("width"@, text::dec(s.width)).with("height"@, text::dec(s.height)).with(
            "ifds"@,
            text::dec(s.ifds),
        ).with("entries"@, text::dec(s.entries)).with(
            "strips"@,
            text::dec(s.strip_offsets.len() as int),
        )
    }
}

/// Whether the bytes that are there begin a TIFF file, in either byte order.
pub open spec fn tiff_begun(d: Seq<u8>) -> bool {
    (bytes::may_hold(d, 0, 0x49) && bytes::may_hold(d, 1, 0x49) && bytes::may_hold(d, 2, 42) && bytes::may_hold(d, 3, 0)) || (bytes::may_hold(d, 0, 0x4D) && bytes::may_hold(d, 1, 0x4D) && bytes::may_hold(d, 2, 0) && bytes::may_hold(d, 3, 42))
}

fn tiff_begun_at(d: &[u8]) -> (r: bool)
    ensures
        r == tiff_begun(d@),
{
    (bytes::may_be(d, 0, 0x49) && bytes::may_be(d, 1, 0x49) && bytes::may_be(d, 2, 42) && bytes::may_be(d, 3, 0)) || (bytes::may_be(d, 0, 0x4D) && bytes::may_be(d, 1, 0x4D) && bytes::may_be(d, 2, 0) && bytes::may_be(d, 3, 42))
}

/// The file ends past the furthest thing any directory entry points at, strips
/// and values stored out of line alike.
pub open spec fn tiff_verdict(d: Seq<u8>) -> Verdict {
    let big = d[0] == 0x4D;
    let ifd = bytes::u32_in(d, 4, big);
    if d.len() < 8 {
        Verdict::reject("shorter than a TIFF header"@).cut_if(tiff_begun(d))
    } else if !(d[0] == 0x49 && d[1] == 0x49) && !(d[0] == 0x4D && d[1] == 0x4D) {
        Verdict::reject("byte-order mark is neither II nor MM"@)
    } else if bytes::u16_in(d, 2, big) != 42 {
        Verdict::reject("the magic number after the byte order is not 42"@)
    } else if ifd < 8 {
        Verdict::reject("the first IFD offset points into the header"@)
    } else {
        match tiff_chain(
            d,
            big,
            ifd,
            0,
            Directories {
                end: 8,
                own: 8,
                ifds: 0,
                entries: 0,
                width: 0,
                height: 0,
                strip_offsets: Seq::empty(),
                strip_counts: Seq::empty(),
                width_past: false,
                height_past: false,
                offsets_past: false,
                counts_past: false,
            },
        ) {
            Err(v) => v,
            Ok(s) => tiff_concluded(d, big, s),
        }
    }
}

fn size_of_type(typ: u64) -> (r: u64)
    ensures
        r == type_size(typ as int),
        r <= 8,
{
    if typ == 1 || typ == 2 || typ == 6 || typ == 7 {
        1
    } else if typ == 3 || typ == 8 {
        2
    } else if typ == 4 || typ == 9 || typ == 11 {
        4
    } else if typ == 5 || typ == 10 || typ == 12 {
        8
    } else {
        0
    }
}

/// The `k`-th value of a directory entry.
fn read_value(d: &[u8], at: usize, typ: u64, k: u64, big: bool) -> (r: Option<u64>)
    requires
        at + 12 <= d@.len(),
        k <= 4096,
    ensures
        match r {
            Some(v) => tiff_value(d@, at as int, typ as int, k as int, big) == Some(v as int)
                && v <= 0xFFFF_FFFF,
            None => tiff_value(d@, at as int, typ as int, k as int, big) is None,
        },
{
    if typ != 3 && typ != 4 {
        return None;
    }
    let unit: u64 = size_of_type(typ);
    let count: u64 = bytes::get32(d, at + 4, big) as u64;
    if k >= count {
        return None;
    }
    assert(0 <= unit * count <= 8 * 0xFFFF_FFFF) by (nonlinear_arith)
        requires
            unit <= 8,
            count <= 0xFFFF_FFFF,
    ;
    assert(0 <= k * unit <= 4096 * 8) by (nonlinear_arith)
        requires
            unit <= 8,
            k <= 4096,
    ;
    let base: u64 = if unit * count <= 4 {
        at as u64 + 8
    } else {
        bytes::get32(d, at + 8, big) as u64
    };
    let pos: u128 = base as u128 + (k * unit) as u128;
    if pos > d.len() as u128 {
        return None;
    }
    if typ == 3 {
        match bytes::read16(d, pos as usize, big) {
            Some(v) => Some(v as u64),
            None => None,
        }
    } else {
        match bytes::read32(d, pos as usize, big) {
            Some(v) => Some(v as u64),
            None => None,
        }
    }
}

spec fn offsets(v: Seq<u64>) -> Seq<int> {
    Seq::new(v.len(), |i: int| v[i] as int)
}

spec fn small(v: Seq<u64>) -> bool {
    forall|i: int| 0 <= i < v.len() ==> #[trigger] v[i] <= 0xFFFF_FFFF
}

/// Append the first `n` values of an entry.
fn read_values(d: &[u8], at: usize, typ: u64, n: u64, big: bool, acc: &mut Vec<u64>)
    requires
        at + 12 <= d@.len(),
        n <= 4096,
        small(old(acc)@),
    ensures
        offsets(final(acc)@) == tiff_values(
            d@,
            at as int,
            typ as int,
            big,
            0,
            n as int,
            offsets(old(acc)@),
        ),
        small(final(acc)@),
{
    let mut k: u64 = 0;
    let ghost whole = tiff_values(d@, at as int, typ as int, big, 0, n as int, offsets(acc@));
    while k < n
        invariant
            at + 12 <= d@.len(),
            k <= n <= 4096,
            small(acc@),
            whole == tiff_values(
                d@,
                at as int,
                typ as int,
                big,
                k as int,
                n as int,
                offsets(acc@),
            ),
        decreases n - k,
    {
        if let Some(v) = read_value(d, at, typ, k, big) {
            proof {
                assert(offsets(acc@.push(v)) =~= offsets(acc@).push(v as int));
            }
            acc.push(v);
        }
        k += 1;
    }
}

/// Whether one of the first `n` values of an entry is stored past the data.
fn stored_past(d: &[u8], at: usize, typ: u64, n: u64, big: bool) -> (r: bool)
    requires
        at + 12 <= d@.len(),
        n <= 4096,
    ensures
        r == tiff_past(d@, at as int, typ as int, n as int, big),
{
    if typ != 3 && typ != 4 {
        return false;
    }
    let unit: u64 = size_of_type(typ);
    let count: u64 = bytes::get32(d, at + 4, big) as u64;
    let off: u64 = bytes::get32(d, at + 8, big) as u64;
    assert(0 <= unit * count <= 8 * 0xFFFF_FFFF && 0 <= unit * n <= 8 * 4096) by (nonlinear_arith)
        requires
            unit <= 8,
            count <= 0xFFFF_FFFF,
            n <= 4096,
    ;
    unit * count > 4 && off + unit * n > d.len() as u64
}

/// What the directories have said so far.
struct Found {
    end: u64,
    own: u64,
    ifds: u64,
    entries: u64,
    width: u64,
    height: u64,
    strip_offsets: Vec<u64>,
    strip_counts: Vec<u64>,
    width_past: bool,
    height_past: bool,
    offsets_past: bool,
    counts_past: bool,
}

impl Found {
    spec fn view(self) -> Directories {
        Directories {
            end: self.end as int,
            own: self.own as int,
            ifds: self.ifds as int,
            entries: self.entries as int,
            width: self.width as int,
            height: self.height as int,
            strip_offsets: offsets(self.strip_offsets@),
            strip_counts: offsets(self.strip_counts@),
            width_past: self.width_past,
            height_past: self.height_past,
            offsets_past: self.offsets_past,
            counts_past: self.counts_past,
        }
    }

    spec fn small(self) -> bool {
        small(self.strip_offsets@) && small(self.strip_counts@)
    }

    /// Read the entry at `at` too.
    fn entry(&mut self, d: &[u8], big: bool, at: usize)
        requires
            at + 12 <= d@.len(),
            old(self).small(),
            old(self).entries < u64::MAX,
        ensures
            final(self).view() == tiff_entry(d@, big, at as int, old(self).view()),
            final(self).small(),
            final(self).entries == old(self).entries + 1,
            final(self).ifds == old(self).ifds,
    {
        let tag: u64 = bytes::get16(d, at, big) as u64;
        let typ: u64 = bytes::get16(d, at + 2, big) as u64;
        let n: u64 = bytes::get32(d, at + 4, big) as u64;
        self.entries = self.entries + 1;
        let unit: u64 = size_of_type(typ);
        assert(0 <= unit * n <= 8 * 0xFFFF_FFFF) by (nonlinear_arith)
            requires
                unit <= 8,
                n <= 0xFFFF_FFFF,
        ;
        let held: u64 = unit * n;
        if held > 4 {
            let off: u64 = bytes::get32(d, at + 8, big) as u64;
            self.end = bytes::max64(self.end, off + held);
        }
        let first_past: bool = stored_past(d, at, typ, 1, big);
        let most: u64 = if n <= 4096 {
            n
        } else {
            4096
        };
        let some_past: bool = stored_past(d, at, typ, most, big);
        if tag == 256 {
            self.width_past = first_past;
            self.width = match read_value(d, at, typ, 0, big) {
                Some(v) => v,
                None => 0,
            };
        } else if tag == 257 {
            self.height_past = first_past;
            self.height = match read_value(d, at, typ, 0, big) {
                Some(v) => v,
                None => 0,
            };
        } else if tag == 273 {
            read_values(d, at, typ, most, big, &mut self.strip_offsets);
            self.offsets_past = self.offsets_past || some_past;
        } else if tag == 279 {
            read_values(d, at, typ, most, big, &mut self.strip_counts);
            self.counts_past = self.counts_past || some_past;
        }
    }

    /// Read the entries of the directory at `ifd`.
    fn directory(&mut self, d: &[u8], big: bool, ifd: usize, count: usize)
        requires
            ifd + 2 + 12 * count <= d@.len(),
            count <= 512,
            old(self).small(),
            old(self).entries <= 0xFFFF_FFFF,
        ensures
            final(self).view() == tiff_entries(
                d@,
                big,
                ifd as int,
                count as int,
                0,
                old(self).view(),
            ),
            final(self).small(),
            final(self).entries == old(self).entries + count,
            final(self).ifds == old(self).ifds,
    {
        let ghost whole = tiff_entries(d@, big, ifd as int, count as int, 0, self.view());
        let mut i: usize = 0;
        while i < count
            invariant
                ifd + 2 + 12 * count <= d@.len(),
                i <= count <= 512,
                self.small(),
                self.entries == old(self).entries + i,
                self.ifds == old(self).ifds,
                old(self).entries <= 0xFFFF_FFFF,
                whole == tiff_entries(d@, big, ifd as int, count as int, i as int, self.view()),
            decreases count - i,
        {
            self.entry(d, big, ifd + 2 + 12 * i);
            i += 1;
        }
    }
}

/// How far the file is known to reach.
fn extent_of(d: &[u8], s: &Found) -> (r: u64)
    ensures
        r == tiff_extent(d@, s.view()),
{
    if s.end <= d.len() as u64 {
        s.end
    } else {
        s.own
    }
}

fn truncated_tiff(d: &[u8], s: &Found, why: &str) -> (r: Outcome)
    ensures
        r@ == tiff_truncated(d@, s.view(), why@),
{
    if s.ifds > 0 {
        Outcome::partial(extent_of(d, s), text::cat2("truncated: ", why).as_str()).truncated()
    } else {
        Outcome::reject(text::cat2(why, ", before any directory was read").as_str()).truncated()
    }
}

fn structural_tiff(d: &[u8], s: &Found, why: &str) -> (r: Outcome)
    ensures
        r@ == tiff_broken(d@, s.view(), why@),
{
    if s.ifds > 0 {
        Outcome::partial(
            extent_of(d, s),
            text::cat2("the directory chain broke: ", why).as_str(),
        )
    } else {
        Outcome::reject(text::cat2("the directory chain broke immediately: ", why).as_str())
    }
}

/// What the directories of a whole chain come to.
fn conclude_tiff(d: &[u8], big: bool, s: &Found) -> (r: Outcome)
    requires
        s.small(),
    ensures
        r@ == tiff_concluded(d@, big, s.view()),
{
    let strips: usize = s.strip_offsets.len();
    let counts: usize = s.strip_counts.len();
    assert(s.view().strip_offsets.len() == strips && s.view().strip_counts.len() == counts);
    if s.width == 0 || s.height == 0 {
        return Outcome::reject("no usable ImageWidth and ImageLength tags").cut_if(
            (s.width != 0 || s.width_past) && (s.height != 0 || s.height_past),
        );
    }
    if strips == 0 {
        return Outcome::partial(
            extent_of(d, s),
            "the directories are intact but no strip offsets were found, so the image data's extent is unknown; length covers the directories only",
        ).cut_if(s.offsets_past).with("width", s.width).with("height", s.height).with(
            "ifds",
            s.ifds,
        );
    }
    if strips != counts {
        return Outcome::partial(
            extent_of(d, s),
            text::cat4(
                text::decimal(strips as u64).as_str(),
                " strip offsets against ",
                text::decimal(counts as u64).as_str(),
                " byte counts; the image data's extent cannot be resolved",
            ).as_str(),
        ).cut_if(s.offsets_past || s.counts_past).with("width", s.width).with("height", s.height);
    }
    let mut end: u64 = s.end;
    let mut i: usize = 0;
    let ghost whole = tiff_strips(
        s.view().strip_offsets,
        s.view().strip_counts,
        0,
        s.view().end,
    );
    while i < strips
        invariant
            i <= strips,
            strips == s.strip_offsets@.len(),
            strips == s.strip_counts@.len(),
            s.small(),
            whole == tiff_strips(
                s.view().strip_offsets,
                s.view().strip_counts,
                i as int,
                end as int,
            ),
        decreases strips - i,
    {
        assert(s.strip_offsets@[i as int] <= 0xFFFF_FFFF);
        assert(s.strip_counts@[i as int] <= 0xFFFF_FFFF);
        end = bytes::max64(end, s.strip_offsets[i] + s.strip_counts[i]);
        i += 1;
    }
    let out = if end > d.len() as u64 {
        Outcome::partial(
            end,
            text::cat5(
                "the directories reach ",
                text::decimal(end).as_str(),
                " but only ",
                text::decimal(d.len() as u64).as_str(),
                " bytes are available",
            ).as_str(),
        ).established().truncated()
    } else {
        Outcome::valid(end)
    };
    let order: &'static str = if big {
        "MM"
    } else {
        "II"
    };
    out.with("byte_order", order).with("width", s.width).with("height", s.height).with(
        "ifds",
        s.ifds,
    ).with("entries", s.entries).with("strips", strips)
}

/// TIFF: the furthest thing any directory entry points at.
pub fn validate_tiff(d: &[u8]) -> (r: Outcome)
    ensures
        r@ == tiff_verdict(d@),
{
    if d.len() < 8 {
        return Outcome::reject("shorter than a TIFF header").cut_if(tiff_begun_at(d));
    }
    let big: bool = d[0] == 0x4D;
    if !(d[0] == 0x49 && d[1] == 0x49) && !(d[0] == 0x4D && d[1] == 0x4D) {
        return Outcome::reject("byte-order mark is neither II nor MM");
    }
    if bytes::get16(d, 2, big) != 42 {
        return Outcome::reject("the magic number after the byte order is not 42");
    }
    let mut ifd: u64 = bytes::get32(d, 4, big) as u64;
    if ifd < 8 {
        return Outcome::reject("the first IFD offset points into the header");
    }
    let mut s = Found {
        end: 8,
        own: 8,
        ifds: 0,
        entries: 0,
        width: 0,
        height: 0,
        strip_offsets: Vec::new(),
        strip_counts: Vec::new(),
        width_past: false,
        height_past: false,
        offsets_past: false,
        counts_past: false,
    };
    assert(s.view().strip_offsets =~= Seq::<int>::empty());
    assert(s.view().strip_counts =~= Seq::<int>::empty());
    let ghost whole = tiff_chain(d@, big, ifd as int, 0, s.view());
    // Bounded so a next-directory pointer that loops cannot spin here.
    let mut round: u64 = 0;
    while round < 64 && ifd != 0
        invariant
            round <= 64,
            ifd <= 0xFFFF_FFFF,
            s.small(),
            s.ifds <= 64,
            s.ifds == round,
            s.entries <= 512 * round,
            whole == tiff_chain(d@, big, ifd as int, round as int, s.view()),
            whole matches Err(v) ==> tiff_verdict(d@) == v,
            whole matches Ok(f) ==> tiff_verdict(d@) == tiff_concluded(d@, big, f),
        decreases 64 - round,
    {
        let n: u64 = d.len() as u64;
        if n < 2 || ifd > n - 2 {
            return truncated_tiff(d, &s, "an IFD is past the available data");
        }
        let at: usize = ifd as usize;
        let count: u64 = bytes::get16(d, at, big) as u64;
        if count == 0 || count > 512 {
            return structural_tiff(d, &s, "an IFD declares an implausible entry count");
        }
        let ifd_end: u64 = ifd + 2 + 12 * count + 4;
        if ifd_end > n {
            return truncated_tiff(d, &s, "an IFD runs past the available data");
        }
        s.end = bytes::max64(s.end, ifd_end);
        s.own = bytes::max64(s.own, ifd_end);
        s.directory(d, big, at, count as usize);
        s.ifds = s.ifds + 1;
        ifd = bytes::get32(d, (ifd_end - 4) as usize, big) as u64;
        round += 1;
    }
    conclude_tiff(d, big, &s)
}

proof fn segments_only_reach_further(
    d: Seq<u8>,
    wide: bool,
    big: bool,
    off: int,
    size: int,
    n: int,
    i: int,
    end: int,
)
    ensures
        elf_segments(d, wide, big, off, size, n, i, end) >= end,
    decreases n - i,
{
    if i < n {
        let at = off + i * size;
        if let (Some(o), Some(s)) = (
            elf_word(d, at + (if wide { 8int } else { 4int }), wide, big),
            elf_word(d, at + (if wide { 32int } else { 16int }), wide, big),
        ) {
            let e = bytes::larger(end, bytes::capped(o + s));
            segments_only_reach_further(d, wide, big, off, size, n, i + 1, e);
        }
    }
}

proof fn sections_only_reach_further(
    d: Seq<u8>,
    wide: bool,
    big: bool,
    off: int,
    size: int,
    n: int,
    i: int,
    end: int,
)
    ensures
        elf_sections(d, wide, big, off, size, n, i, end) >= end,
    decreases n - i,
{
    let at = off + i * size;
    if i < n && bytes::fits(d, at + 4, 4) {
        if bytes::u32_in(d, at + 4, big) == 8 {
            sections_only_reach_further(d, wide, big, off, size, n, i + 1, end);
        } else if let (Some(o), Some(s)) = (
            elf_word(d, at + (if wide { 24int } else { 16int }), wide, big),
            elf_word(d, at + (if wide { 32int } else { 20int }), wide, big),
        ) {
            let e = bytes::larger(end, bytes::capped(o + s));
            sections_only_reach_further(d, wide, big, off, size, n, i + 1, e);
        }
    }
}

/// A rejection claims no length, a complete file is all there, and a damaged
/// one claims no more than was there unless it states its own size.
pub proof fn elf_is_sound(d: Seq<u8>)
    ensures
        elf_verdict(d).sound_for(d.len() as int),
{
    let big = d[5] == 2;
    let wide = d[4] == 2;
    let tail = if wide {
        52int
    } else {
        40int
    };
    let phoff = elf_word_or_zero(d, if wide { 32 } else { 28 }, wide, big);
    let shoff = elf_word_or_zero(d, if wide { 40 } else { 32 }, wide, big);
    let phsize = elf_half_or_zero(d, tail + 2, big);
    let phnum = elf_half_or_zero(d, tail + 4, big);
    let shsize = elf_half_or_zero(d, tail + 6, big);
    let shnum = elf_half_or_zero(d, tail + 8, big);
    let header = if wide {
        64int
    } else {
        52int
    };
    let e1 = if phnum > 0 {
        bytes::larger(header, elf_table_end(phoff, phnum, phsize))
    } else {
        header
    };
    let e2 = if shnum > 0 {
        bytes::larger(e1, elf_table_end(shoff, shnum, shsize))
    } else {
        e1
    };
    let e3 = elf_segments(d, wide, big, phoff, phsize, at_most(phnum, 256), 0, e2);
    segments_only_reach_further(d, wide, big, phoff, phsize, at_most(phnum, 256), 0, e2);
    sections_only_reach_further(d, wide, big, shoff, shsize, at_most(shnum, 512), 0, e3);
}

/// A rejection claims no length, a complete file is all there, and a damaged
/// one claims no more than was there unless it states its own size.
pub proof fn evtx_is_sound(d: Seq<u8>)
    ensures
        evtx_verdict(d).sound_for(d.len() as int),
{
}

proof fn psd_sections_stay_inside(d: Seq<u8>, i: int, at: int)
    requires
        0 <= at <= d.len(),
    ensures
        match psd_sections(d, i, at) {
            Ok(end) => at <= end <= d.len(),
            Err(v) => v.sound_for(d.len() as int),
        },
    decreases 3 - i,
{
    if i < 3 && bytes::fits(d, at, 4) && at + 4 + bytes::u32_be(d, at) <= d.len() {
        psd_sections_stay_inside(d, i + 1, at + 4 + bytes::u32_be(d, at));
    }
}

/// A rejection claims no length, a complete file is all there, and a damaged
/// one claims no more than was there unless it states its own size.
pub proof fn psd_is_sound(d: Seq<u8>)
    ensures
        psd_verdict(d).sound_for(d.len() as int),
{
    if d.len() >= 34 {
        psd_sections_stay_inside(d, 0, 26);
    }
    let width = bytes::u32_be(d, 18);
    let height = bytes::u32_be(d, 14);
    let channels = bytes::u16_be(d, 12);
    let per = (bytes::u16_be(d, 22) + 7) / 8;
    assert(width * height * channels * per >= 0) by (nonlinear_arith)
        requires
            width >= 0,
            height >= 0,
            channels >= 0,
            per >= 0,
    ;
}

/// A rejection claims no length, a complete file is all there, and a damaged
/// one claims no more than was there unless it states its own size.
pub proof fn hive_is_sound(d: Seq<u8>)
    ensures
        hive_verdict(d).sound_for(d.len() as int),
{
}

proof fn rtf_stays_inside(d: Seq<u8>, i: int, depth: int, groups: int, brace: int)
    requires
        0 <= i,
        0 <= brace <= d.len(),
    ensures
        rtf_from(d, i, depth, groups, brace).sound_for(d.len() as int),
    decreases d.len() + 1 - i,
{
    if i < d.len() {
        if d[i] == 0x5C {
            rtf_stays_inside(d, i + 2, depth, groups, brace);
        } else if d[i] == 0x7B {
            rtf_stays_inside(d, i + 1, depth + 1, groups + 1, i + 1);
        } else if d[i] == 0x7D {
            if depth > 1 {
                rtf_stays_inside(d, i + 1, depth - 1, groups, i + 1);
            }
        } else {
            rtf_stays_inside(d, i + 1, depth, groups, brace);
        }
    }
}

/// A rejection claims no length, a complete file is all there, and a damaged
/// one claims no more than was there unless it states its own size.
pub proof fn rtf_is_sound(d: Seq<u8>)
    ensures
        rtf_verdict(d).sound_for(d.len() as int),
{
    rtf_stays_inside(d, 0, 0, 0, 0);
}

proof fn entries_only_reach_further(
    d: Seq<u8>,
    big: bool,
    ifd: int,
    count: int,
    i: int,
    s: Directories,
)
    ensures
        tiff_entries(d, big, ifd, count, i, s).end >= s.end,
        tiff_entries(d, big, ifd, count, i, s).own == s.own,
    decreases count - i,
{
    if i < count {
        let s1 = tiff_entry(d, big, ifd + 2 + 12 * i, s);
        entries_only_reach_further(d, big, ifd, count, i + 1, s1);
    }
}

proof fn chain_stays_inside(d: Seq<u8>, big: bool, ifd: int, round: int, s: Directories)
    requires
        s.end >= 0,
        0 <= s.own <= d.len(),
    ensures
        match tiff_chain(d, big, ifd, round, s) {
            Ok(f) => f.end >= 0 && 0 <= f.own <= d.len(),
            Err(v) => v.sound_for(d.len() as int),
        },
    decreases 64 - round,
{
    if round < 64 && ifd != 0 && bytes::fits(d, ifd, 2) {
        let count = bytes::u16_in(d, ifd, big);
        let ifd_end = ifd + 2 + 12 * count + 4;
        if 0 < count <= 512 && ifd_end <= d.len() {
            let s0 = Directories {
                end: bytes::larger(s.end, ifd_end),
                own: bytes::larger(s.own, ifd_end),
                ..s
            };
            let s1 = tiff_entries(d, big, ifd, count, 0, s0);
            entries_only_reach_further(d, big, ifd, count, 0, s0);
            chain_stays_inside(
                d,
                big,
                bytes::u32_in(d, ifd_end - 4, big),
                round + 1,
                Directories { ifds: s1.ifds + 1, ..s1 },
            );
        }
    }
}

proof fn strips_only_reach_further(offsets: Seq<int>, counts: Seq<int>, i: int, end: int)
    ensures
        tiff_strips(offsets, counts, i, end) >= end,
    decreases offsets.len() - i,
{
    if 0 <= i < offsets.len() {
        let e = bytes::larger(end, offsets[i] + counts[i]);
        strips_only_reach_further(offsets, counts, i + 1, e);
    }
}

/// A rejection claims no length, a complete file is all there, and a damaged
/// one claims no more than was there unless it states its own size.
pub proof fn tiff_is_sound(d: Seq<u8>)
    ensures
        tiff_verdict(d).sound_for(d.len() as int),
{
    let big = d[0] == 0x4D;
    let s = Directories {
        end: 8,
        own: 8,
        ifds: 0,
        entries: 0,
        width: 0,
        height: 0,
        strip_offsets: Seq::empty(),
        strip_counts: Seq::empty(),
        width_past: false,
        height_past: false,
        offsets_past: false,
        counts_past: false,
    };
    let ifd = bytes::u32_in(d, 4, big);
    if d.len() >= 8 {
        chain_stays_inside(d, big, ifd, 0, s);
        if let Ok(f) = tiff_chain(d, big, ifd, 0, s) {
            strips_only_reach_further(f.strip_offsets, f.strip_counts, 0, f.end);
        }
    }
}

} // verus!
