//! BMP: read the size fields back and check that they agree.
//!
//! `BM` turns up about once in every 64 KB of random data, and there is no
//! checksum and no footer to lean on. What there is: four independent size
//! fields that must agree - the file size, the pixel-data offset, the header
//! size, and the dimensions times the bit depth.

use vstd::prelude::*;
use vstd::slice::*;
use crate::bytes;
use crate::text;
use super::{Outcome, Verdict};

verus! {

broadcast use bytes::slice_fits;

/// Every bitmap header size that has been defined.
pub open spec fn defined_header(size: int) -> bool {
    size == 12 || size == 16 || size == 40 || size == 52 || size == 56 || size == 64 || size == 108
        || size == 124
}

/// Two bytes, or zero where they are past the data.
pub open spec fn half(d: Seq<u8>, at: int) -> int {
    if bytes::fits(d, at, 2) {
        bytes::u16_le(d, at)
    } else {
        0
    }
}

/// Four bytes, or zero where they are past the data.
pub open spec fn word(d: Seq<u8>, at: int) -> int {
    if bytes::fits(d, at, 4) {
        bytes::u32_le(d, at)
    } else {
        0
    }
}

/// A 32-bit number read as a signed one.
pub open spec fn signed(n: int) -> int {
    if n >= 0x8000_0000 {
        n - 0x1_0000_0000
    } else {
        n
    }
}

/// What the bitmap header says.
pub struct Geometry {
    pub width: int,
    pub height: int,
    pub planes: int,
    pub bpp: int,
    pub compression: int,
}

/// The oldest header stores 16-bit dimensions; every later one 32-bit.
pub open spec fn geometry(d: Seq<u8>, dib_size: int) -> Geometry {
    if dib_size == 12 {
        Geometry {
            width: half(d, 18),
            height: half(d, 20),
            planes: half(d, 22),
            bpp: half(d, 24),
            compression: 0,
        }
    } else {
        Geometry {
            width: signed(word(d, 18)),
            height: signed(word(d, 22)),
            planes: half(d, 26),
            bpp: half(d, 28),
            compression: if dib_size >= 40 {
                word(d, 30)
            } else {
                0
            },
        }
    }
}

impl Geometry {
    /// A negative height means a bitmap stored from the top down.
    pub open spec fn rows(self) -> int {
        if self.height < 0 {
            -self.height
        } else {
            self.height
        }
    }

    /// What uncompressed pixels take, each row padded to four bytes.
    pub open spec fn pixels(self) -> int {
        bytes::capped((self.width * self.bpp + 31) / 32 * 4 * self.rows())
    }
}

/// Where a header of this size has its number of colour planes.
pub open spec fn planes_at(dib_size: int) -> int {
    if dib_size == 12 {
        22
    } else {
        26
    }
}

/// Whether the bytes that are there begin a bitmap.
pub open spec fn begun(d: Seq<u8>) -> bool {
    bytes::may_hold(d, 0, 0x42) && bytes::may_hold(d, 1, 0x4D)
}

fn begun_at(d: &[u8]) -> (r: bool)
    ensures
        r == begun(d@),
{
    bytes::may_be(d, 0, 0x42) && bytes::may_be(d, 1, 0x4D)
}

/// What the bytes of `d` are as a BMP.
pub open spec fn verdict(d: Seq<u8>) -> Verdict {
    let file_size = bytes::u32_le(d, 2);
    let data_offset = bytes::u32_le(d, 10);
    let dib_size = bytes::u32_le(d, 14);
    let g = geometry(d, dib_size);
    let claimed = file_size - data_offset;
    if d.len() < 18 {
        Verdict::reject("shorter than a BMP file header plus a DIB size"@).cut_if(begun(d))
    } else if d[0] != 0x42 || d[1] != 0x4D {
        Verdict::reject("does not begin with BM"@)
    } else if bytes::u32_le(d, 6) != 0 {
        Verdict::reject("the reserved words are non-zero"@)
    } else if !defined_header(dib_size) {
        Verdict::reject("DIB header size "@ + text::dec(dib_size) + " is not a defined value"@)
    } else if data_offset < 14 + dib_size {
        Verdict::reject("pixel data starts inside the headers"@)
    } else if file_size < data_offset {
        Verdict::reject("the declared file size is smaller than the pixel-data offset"@)
    } else if g.planes != 1 {
        Verdict::reject(
            "colour planes is "@ + text::dec(g.planes) + "; a BMP always declares 1"@,
        ).cut_if(!bytes::fits(d, planes_at(dib_size), 2))
    } else if g.bpp != 1 && g.bpp != 4 && g.bpp != 8 && g.bpp != 16 && g.bpp != 24 && g.bpp != 32 {
        Verdict::reject(text::dec(g.bpp) + " bits per pixel is not a defined value"@).cut_if(
            !bytes::fits(d, planes_at(dib_size) + 2, 2),
        )
    } else if g.width <= 0 || g.height == 0 {
        Verdict::reject("a dimension is zero or negative"@)
    } else if g.compression == 0 && claimed < g.pixels() {
        Verdict::reject(
            "declares "@ + text::dec(claimed) + " bytes of pixel data but "@ + (text::dec(g.width)
                + "x"@ + text::dec(g.rows()) + " at "@ + text::dec(g.bpp) + "bpp needs "@
                + text::dec(g.pixels())),
        ).cut_if(dib_size >= 40 && !bytes::fits(d, 30, 4))
    } else {
        (if file_size > d.len() {
            Verdict::partial(
                file_size,
                "the header declares "@ + text::dec(file_size) + " bytes but only "@ + text::dec(
                    d.len() as int,
                )
                    + " are available; truncated, though the declared size is still trustworthy"@,
            ).established().truncated()
        } else {
            Verdict::valid(file_size)
        }).with("width"@, text::dec(g.width)).with("height"@, text::dec(g.rows())).with(
            "bits_per_pixel"@,
            text::dec(g.bpp),
        ).with("compression"@, text::dec(g.compression)).with(
            "top_down"@,
            text::yes_no(g.height < 0),
        )
    }
}

fn half_at(d: &[u8], at: usize) -> (r: u16)
    ensures
        r == half(d@, at as int),
{
    match bytes::le16(d, at) {
        Some(v) => v,
        None => 0,
    }
}

fn word_at(d: &[u8], at: usize) -> (r: u32)
    ensures
        r == word(d@, at as int),
{
    match bytes::le32(d, at) {
        Some(v) => v,
        None => 0,
    }
}

fn as_signed(n: u32) -> (r: i64)
    ensures
        r == signed(n as int),
        -0x8000_0000 <= r < 0x8000_0000,
{
    if n >= 0x8000_0000 {
        n as i64 - 0x1_0000_0000
    } else {
        n as i64
    }
}

fn pixel_bytes(width: u64, bpp: u64, rows: u64) -> (r: u64)
    requires
        0 < width <= 0x8000_0000,
        bpp <= 32,
        rows <= 0x8000_0000,
    ensures
        r == bytes::capped((width * bpp + 31) / 32 * 4 * rows),
{
    assert(0 <= width * bpp <= 0x8000_0000 * 32) by (nonlinear_arith)
        requires
            width <= 0x8000_0000,
            bpp <= 32,
    ;
    let row: u128 = ((width * bpp + 31) / 32 * 4) as u128;
    assert(0 <= row * rows <= 0x4_0000_0000 * 0x8000_0000) by (nonlinear_arith)
        requires
            0 <= row <= 0x4_0000_0000,
            rows <= 0x8000_0000,
    ;
    let all: u128 = row * rows as u128;
    if all > 0xFFFF_FFFF_FFFF_FFFFu128 {
        0xFFFF_FFFF_FFFF_FFFFu64
    } else {
        all as u64
    }
}

/// BMP: the size its header declares, once the four sizes agree.
pub fn validate(d: &[u8]) -> (r: Outcome)
    ensures
        r@ == verdict(d@),
{
    if d.len() < 18 {
        return Outcome::reject("shorter than a BMP file header plus a DIB size").cut_if(begun_at(d));
    }
    if d[0] != 0x42 || d[1] != 0x4D {
        return Outcome::reject("does not begin with BM");
    }
    let file_size: u64 = bytes::get32(d, 2, false) as u64;
    let reserved: u32 = bytes::get32(d, 6, false);
    let data_offset: u64 = bytes::get32(d, 10, false) as u64;
    let dib_size: u64 = bytes::get32(d, 14, false) as u64;
    if reserved != 0 {
        return Outcome::reject("the reserved words are non-zero");
    }
    if !(dib_size == 12 || dib_size == 16 || dib_size == 40 || dib_size == 52 || dib_size == 56
        || dib_size == 64 || dib_size == 108 || dib_size == 124) {
        return Outcome::reject(
            text::cat3(
                "DIB header size ",
                text::decimal(dib_size).as_str(),
                " is not a defined value",
            ).as_str(),
        );
    }
    if data_offset < 14 + dib_size {
        return Outcome::reject("pixel data starts inside the headers");
    }
    if file_size < data_offset {
        return Outcome::reject("the declared file size is smaller than the pixel-data offset");
    }
    let (width, height, planes, bpp): (i64, i64, u16, u16) = if dib_size == 12 {
        (half_at(d, 18) as i64, half_at(d, 20) as i64, half_at(d, 22), half_at(d, 24))
    } else {
        (
            as_signed(word_at(d, 18)),
            as_signed(word_at(d, 22)),
            half_at(d, 26),
            half_at(d, 28),
        )
    };
    let plane_field: usize = if dib_size == 12 {
        22
    } else {
        26
    };
    if planes != 1 {
        return Outcome::reject(
            text::cat3(
                "colour planes is ",
                text::decimal(planes as u64).as_str(),
                "; a BMP always declares 1",
            ).as_str(),
        ).cut_if(d.len() < plane_field + 2);
    }
    if bpp != 1 && bpp != 4 && bpp != 8 && bpp != 16 && bpp != 24 && bpp != 32 {
        return Outcome::reject(
            text::cat2(
                text::decimal(bpp as u64).as_str(),
                " bits per pixel is not a defined value",
            ).as_str(),
        ).cut_if(d.len() < plane_field + 4);
    }
    // A negative height is legal; zero is not, and width is never negative.
    if width <= 0 || height == 0 {
        return Outcome::reject("a dimension is zero or negative");
    }
    let rows: u64 = if height < 0 {
        (-height) as u64
    } else {
        height as u64
    };
    let compression: u32 = if dib_size >= 40 {
        word_at(d, 30)
    } else {
        0
    };
    let pixels: u64 = pixel_bytes(width as u64, bpp as u64, rows);
    // Writers differ on whether trailing padding or colour tables are counted,
    // so the pixel array may be larger than the geometry demands.
    if compression == 0 && file_size - data_offset < pixels {
        let needs = text::cat7(
            text::decimal(width as u64).as_str(),
            "x",
            text::decimal(rows).as_str(),
            " at ",
            text::decimal(bpp as u64).as_str(),
            "bpp needs ",
            text::decimal(pixels).as_str(),
        );
        return Outcome::reject(
            text::cat4(
                "declares ",
                text::decimal(file_size - data_offset).as_str(),
                " bytes of pixel data but ",
                needs.as_str(),
            ).as_str(),
        ).cut_if(dib_size >= 40 && d.len() < 34);
    }
    let out = if file_size > d.len() as u64 {
        // The length lives in the file header, which survived.
        Outcome::partial(
            file_size,
            text::cat5(
                "the header declares ",
                text::decimal(file_size).as_str(),
                " bytes but only ",
                text::decimal(d.len() as u64).as_str(),
                " are available; truncated, though the declared size is still trustworthy",
            ).as_str(),
        ).established().truncated()
    } else {
        Outcome::valid(file_size)
    };
    out.with("width", width as u64).with("height", rows).with("bits_per_pixel", bpp).with(
        "compression",
        compression,
    ).with("top_down", height < 0)
}

/// A rejection claims no length, a complete file is all there, and a damaged
/// one claims no more than was there unless it states its own size.
pub proof fn is_sound(d: Seq<u8>)
    ensures
        verdict(d).sound_for(d.len() as int),
{
}

} // verus!
