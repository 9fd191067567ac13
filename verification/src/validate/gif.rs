//! GIF: walk the block chain to the trailer.
//!
//! A GIF ends at a single trailer byte, `3B`, which also occurs constantly
//! inside compressed image data. The only way to it is the block structure:
//! every block declares its own length, and image and extension payloads are
//! chains of sub-blocks, each with a one-byte count, ended by a zero.

use vstd::prelude::*;
use vstd::arithmetic::power2::*;
use vstd::slice::*;
use crate::bytes;
use crate::text;
use super::{Outcome, Verdict};

verus! {

broadcast use bytes::slice_fits;

/// The bytes a colour table takes: three for each of 2^(N+1) colours, or none
/// where the flags declare none.
pub open spec fn colour_table(flags: u8) -> int {
    if flags >= 0x80 {
        3 * pow2((flags % 8 + 1) as nat) as int
    } else {
        0
    }
}

/// The offset just past a chain of sub-blocks, or `None` where it runs past
/// the data.
pub open spec fn past_sub_blocks(d: Seq<u8>, at: int) -> Option<int>
    decreases d.len() - at,
{
    if at < 0 || at >= d.len() {
        None
    } else if d[at] == 0 {
        Some(at + 1)
    } else if at + 1 + d[at] >= d.len() {
        None
    } else {
        past_sub_blocks(d, at + 1 + d[at])
    }
}

/// A chain that the data ends in the middle of, at `at`.
pub open spec fn truncated_at(at: int, images: int, why: Seq<char>) -> Verdict {
    if images > 0 {
        Verdict::partial(at, "truncated: "@ + why).truncated()
    } else {
        Verdict::reject(why + ", before any image block"@).truncated()
    }
}

/// A chain that breaks at `at`.
pub open spec fn broken_at(at: int, images: int, why: Seq<char>) -> Verdict {
    if images > 0 {
        Verdict::partial(at, "the block chain broke: "@ + why)
    } else {
        Verdict::reject("the block chain broke before any image: "@ + why)
    }
}

/// An image block whose descriptor begins at `at`: the offset past it, or what
/// is wrong. An image with a whole descriptor and a plausible code size counts
/// even where its data is cut short.
pub open spec fn image_block(d: Seq<u8>, at: int, images: int) -> Result<int, Verdict> {
    let lzw = at + 9 + colour_table(d[at + 8]);
    if !bytes::fits(d, at, 9) {
        Err(truncated_at(at, images, "truncated image descriptor"@))
    } else if lzw >= d.len() {
        // A colour table that does not fit leaves no more than the block's start.
        Err(
            truncated_at(
                if lzw == d.len() {
                    lzw
                } else {
                    at - 1
                },
                images,
                "truncated before the LZW code size"@,
            ),
        )
    } else if d[lzw] < 2 || d[lzw] > 12 {
        Err(broken_at(lzw, images, "an implausible LZW minimum code size"@))
    } else {
        match past_sub_blocks(d, lzw + 1) {
            Some(next) => Ok(next),
            None => Err(truncated_at(lzw + 1, images + 1, "image data runs past the end"@)),
        }
    }
}

/// An extension block whose label is at `at`.
pub open spec fn extension_block(d: Seq<u8>, at: int, images: int) -> Result<int, Verdict> {
    if at >= d.len() {
        Err(truncated_at(at, images, "truncated extension label"@))
    } else {
        match past_sub_blocks(d, at + 1) {
            Some(next) => Ok(next),
            None => Err(truncated_at(at + 1, images, "extension data runs past the end"@)),
        }
    }
}

/// The version in the header.
pub open spec fn version(d: Seq<u8>) -> Seq<char> {
    if d[4] == 0x37 {
        "87a"@
    } else {
        "89a"@
    }
}

/// The block chain from `at` on.
pub open spec fn blocks_from(d: Seq<u8>, at: int, images: int, extensions: int) -> Verdict
    decreases d.len() - at,
    when at >= 0
    via blocks_move_on
{
    if at >= d.len() {
        truncated_at(at, images, "ran out of data before the trailer"@)
    } else if d[at] == 0x3B {
        if images == 0 {
            Verdict::reject("reached the trailer with no image block"@)
        } else {
            Verdict::valid(at + 1).with("version"@, version(d)).with(
                "width"@,
                text::dec(bytes::u16_le(d, 6)),
            ).with("height"@, text::dec(bytes::u16_le(d, 8))).with("images"@, text::dec(images)).with(
                "extensions"@,
                text::dec(extensions),
            )
        }
    } else if d[at] == 0x2C {
        match image_block(d, at + 1, images) {
            Err(v) => v,
            Ok(next) => blocks_from(d, next, images + 1, extensions),
        }
    } else if d[at] == 0x21 {
        match extension_block(d, at + 1, images) {
            Err(v) => v,
            Ok(next) => blocks_from(d, next, images, extensions + 1),
        }
    } else {
        broken_at(
            at,
            images,
            "a block marker that is not an image, an extension or the trailer"@,
        )
    }
}

/// A chain of sub-blocks ends past where it begins, inside the data.
pub proof fn sub_blocks_move_on(d: Seq<u8>, at: int)
    ensures
        past_sub_blocks(d, at) matches Some(next) ==> at < next <= d.len(),
    decreases d.len() - at,
{
    if 0 <= at < d.len() && d[at] != 0 && at + 1 + d[at] < d.len() {
        sub_blocks_move_on(d, at + 1 + d[at]);
    }
}

#[via_fn]
proof fn blocks_move_on(d: Seq<u8>, at: int, images: int, extensions: int) {
    if at < d.len() {
        let lzw = at + 10 + colour_table(d[at + 9]);
        sub_blocks_move_on(d, lzw + 1);
        sub_blocks_move_on(d, at + 2);
    }
}

/// Whether the bytes that are there begin a GIF.
pub open spec fn begun(d: Seq<u8>) -> bool {
    bytes::may_hold(d, 0, 0x47) && bytes::may_hold(d, 1, 0x49) && bytes::may_hold(d, 2, 0x46) && bytes::may_hold(d, 3, 0x38) && (bytes::may_hold(d, 4, 0x37) || bytes::may_hold(d, 4, 0x39)) && bytes::may_hold(d, 5, 0x61)
}

fn begun_at(d: &[u8]) -> (r: bool)
    ensures
        r == begun(d@),
{
    bytes::may_be(d, 0, 0x47) && bytes::may_be(d, 1, 0x49) && bytes::may_be(d, 2, 0x46) && bytes::may_be(d, 3, 0x38) && (bytes::may_be(d, 4, 0x37) || bytes::may_be(d, 4, 0x39)) && bytes::may_be(d, 5, 0x61)
}

/// What the bytes of `d` are as a GIF.
pub open spec fn verdict(d: Seq<u8>) -> Verdict {
    let at = 13 + colour_table(d[10]);
    if d.len() < 13 {
        Verdict::reject("shorter than a GIF header and screen descriptor"@).cut_if(begun(d))
    } else if !(d[0] == 0x47 && d[1] == 0x49 && d[2] == 0x46 && d[3] == 0x38 && (d[4] == 0x37
        || d[4] == 0x39) && d[5] == 0x61) {
        Verdict::reject("not a GIF87a or GIF89a header"@)
    } else if bytes::u16_le(d, 6) == 0 || bytes::u16_le(d, 8) == 0 {
        Verdict::reject("the logical screen descriptor declares a zero dimension"@)
    } else if at > d.len() {
        Verdict::reject("the global colour table runs past the data"@).truncated()
    } else {
        blocks_from(d, at, 0, 0)
    }
}

fn table_bytes(flags: u8) -> (r: usize)
    ensures
        r == colour_table(flags),
        r <= 768,
{
    if flags >= 0x80 {
        proof {
            lemma2_to64();
            if flags % 8 + 1 < 8 {
                lemma_pow2_strictly_increases((flags % 8 + 1) as nat, 8);
            }
        }
        3 * bytes::two_to((flags % 8 + 1) as u32) as usize
    } else {
        0
    }
}

/// Step over a chain of sub-blocks.
fn skip_sub_blocks(d: &[u8], start: usize) -> (r: Option<usize>)
    ensures
        match r {
            Some(next) => past_sub_blocks(d@, start as int) == Some(next as int) && start < next
                <= d@.len(),
            None => past_sub_blocks(d@, start as int) is None,
        },
{
    let mut at: usize = start;
    while at < d.len()
        invariant
            start <= at,
            past_sub_blocks(d@, start as int) == past_sub_blocks(d@, at as int),
        decreases d@.len() - at,
    {
        let n: usize = d[at] as usize;
        if n == 0 {
            return Some(at + 1);
        }
        if n >= d.len() - at - 1 {
            return None;
        }
        at = at + 1 + n;
    }
    None
}

fn truncated(at: usize, images: u64, why: &str) -> (r: Outcome)
    ensures
        r@ == truncated_at(at as int, images as int, why@),
{
    if images > 0 {
        Outcome::partial(at as u64, text::cat2("truncated: ", why).as_str()).truncated()
    } else {
        Outcome::reject(text::cat2(why, ", before any image block").as_str()).truncated()
    }
}

fn structural(at: usize, images: u64, why: &str) -> (r: Outcome)
    ensures
        r@ == broken_at(at as int, images as int, why@),
{
    if images > 0 {
        Outcome::partial(at as u64, text::cat2("the block chain broke: ", why).as_str())
    } else {
        Outcome::reject(text::cat2("the block chain broke before any image: ", why).as_str())
    }
}

/// Step over an image block whose descriptor begins at `at`.
fn skip_image(d: &[u8], at: usize, images: u64) -> (r: Result<usize, Outcome>)
    requires
        0 < at,
        images < u64::MAX,
    ensures
        match image_block(d@, at as int, images as int) {
            Ok(next) => r matches Ok(x) && x == next && at < next <= d@.len(),
            Err(v) => r matches Err(o) && o@ == v,
        },
{
    if !bytes::has(d, at, 9) {
        return Err(truncated(at, images, "truncated image descriptor"));
    }
    let table: usize = table_bytes(d[at + 8]);
    if table >= d.len() - at - 9 {
        let length: usize = if table == d.len() - at - 9 {
            d.len()
        } else {
            at - 1
        };
        return Err(truncated(length, images, "truncated before the LZW code size"));
    }
    let lzw: usize = at + 9 + table;
    if d[lzw] < 2 || d[lzw] > 12 {
        return Err(structural(lzw, images, "an implausible LZW minimum code size"));
    }
    match skip_sub_blocks(d, lzw + 1) {
        Some(next) => Ok(next),
        None => Err(truncated(lzw + 1, images + 1, "image data runs past the end")),
    }
}

/// GIF: the offset just past the trailer.
pub fn validate(d: &[u8]) -> (r: Outcome)
    ensures
        r@ == verdict(d@),
{
    if d.len() < 13 {
        return Outcome::reject("shorter than a GIF header and screen descriptor").cut_if(begun_at(d));
    }
    if !(d[0] == 0x47 && d[1] == 0x49 && d[2] == 0x46 && d[3] == 0x38 && (d[4] == 0x37 || d[4]
        == 0x39) && d[5] == 0x61) {
        return Outcome::reject("not a GIF87a or GIF89a header");
    }
    let label: &'static str = if d[4] == 0x37 {
        "87a"
    } else {
        "89a"
    };
    let width: u16 = bytes::get16(d, 6, false);
    let height: u16 = bytes::get16(d, 8, false);
    if width == 0 || height == 0 {
        return Outcome::reject("the logical screen descriptor declares a zero dimension");
    }
    let table: usize = table_bytes(d[10]);
    if table > d.len() - 13 {
        return Outcome::reject("the global colour table runs past the data").truncated();
    }
    let mut at: usize = 13 + table;
    let mut images: u64 = 0;
    let mut extensions: u64 = 0;
    loop
        invariant
            13 <= at <= d@.len(),
            images <= at,
            extensions <= at,
            label@ == version(d@),
            width == bytes::u16_le(d@, 6),
            height == bytes::u16_le(d@, 8),
            verdict(d@) == blocks_from(d@, at as int, images as int, extensions as int),
        decreases d@.len() - at,
    {
        if at >= d.len() {
            return truncated(at, images, "ran out of data before the trailer");
        }
        let marker: u8 = d[at];
        if marker == 0x3B {
            if images == 0 {
                return Outcome::reject("reached the trailer with no image block");
            }
            return Outcome::valid((at + 1) as u64).with("version", label).with(
                "width",
                width,
            ).with("height", height).with("images", images).with("extensions", extensions);
        } else if marker == 0x2C {
            match skip_image(d, at + 1, images) {
                Ok(next) => {
                    at = next;
                },
                Err(out) => {
                    return out;
                },
            }
            images += 1;
        } else if marker == 0x21 {
            if at + 1 >= d.len() {
                return truncated(at + 1, images, "truncated extension label");
            }
            match skip_sub_blocks(d, at + 2) {
                Some(next) => {
                    at = next;
                },
                None => {
                    return truncated(at + 2, images, "extension data runs past the end");
                },
            }
            extensions += 1;
        } else {
            return structural(
                at,
                images,
                "a block marker that is not an image, an extension or the trailer",
            );
        }
    }
}

proof fn table_takes(flags: u8)
    ensures
        colour_table(flags) >= 0,
{
}

proof fn blocks_stay_inside(d: Seq<u8>, at: int, images: int, extensions: int)
    requires
        0 <= at <= d.len(),
    ensures
        blocks_from(d, at, images, extensions).sound_for(d.len() as int),
    decreases d.len() - at,
{
    if at < d.len() {
        let lzw = at + 10 + colour_table(d[at + 9]);
        table_takes(d[at + 9]);
        sub_blocks_move_on(d, lzw + 1);
        sub_blocks_move_on(d, at + 2);
        if d[at] == 0x2C {
            if let Ok(next) = image_block(d, at + 1, images) {
                blocks_stay_inside(d, next, images + 1, extensions);
            }
        } else if d[at] == 0x21 {
            if let Ok(next) = extension_block(d, at + 1, images) {
                blocks_stay_inside(d, next, images, extensions + 1);
            }
        }
    }
}

/// A rejection claims no length, a complete file is all there, and a damaged
/// one claims no more than was there unless it states its own size.
pub proof fn is_sound(d: Seq<u8>)
    ensures
        verdict(d).sound_for(d.len() as int),
{
    table_takes(d[10]);
    if 13 + colour_table(d[10]) <= d.len() {
        blocks_stay_inside(d, 13 + colour_table(d[10]), 0, 0);
    }
}

} // verus!
