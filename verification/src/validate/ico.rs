//! Icons and cursors: the directory has to describe images that exist.
//!
//! The signature, `00 00 01 00`, is three-quarters zeros and matches
//! constantly in free space. An icon is a six-byte header and a directory of
//! 16-byte entries, each naming a byte range that must lie inside the file,
//! past the directory, and hold a PNG or a bitmap. A run of zeros satisfies
//! none of that.

use vstd::prelude::*;
use vstd::slice::*;
use crate::bytes;
use crate::text;
use super::png;
use super::{Outcome, Verdict};

verus! {

broadcast use bytes::slice_fits;

/// What the entries read so far come to.
#[verifier::ext_equal]
pub struct Images {
    pub end: int,
    pub pngs: int,
    pub dibs: int,
}

/// Whether a range holds a PNG.
pub open spec fn holds_png(payload: Seq<u8>) -> bool {
    bytes::begins(payload, png::signature())
}

/// Whether a range holds a bitmap with the common 40-byte header.
pub open spec fn holds_dib(payload: Seq<u8>) -> bool {
    bytes::fits(payload, 0, 4) && bytes::u32_le(payload, 0) == 40
}

/// The `i`-th entry: what the images come to with it, or what is wrong.
pub open spec fn entry_at(d: Seq<u8>, kind: int, count: int, i: int, s: Images) -> Result<
    Images,
    Verdict,
> {
    let at = 6 + 16 * i;
    let dir_end = 6 + 16 * count;
    let planes = bytes::u16_le(d, at + 4);
    let bits = bytes::u16_le(d, at + 6);
    let size = bytes::u32_le(d, at + 8);
    let offset = bytes::u32_le(d, at + 12);
    let end = offset + size;
    let payload = d.subrange(offset, end);
    if d[at + 3] != 0 {
        Err(Verdict::reject("an entry's reserved byte is not zero"@))
    } else if kind == 1 && (planes > 1 || bits > 32) {
        Err(
            Verdict::reject(
                "an entry declares "@ + text::dec(planes) + " planes at "@ + text::dec(bits)
                    + " bits per pixel"@,
            ),
        )
    } else if size == 0 {
        Err(Verdict::reject("an entry declares a zero-byte image"@))
    } else if offset < dir_end {
        Err(Verdict::reject("an entry's image data starts inside the directory"@))
    } else if end > d.len() {
        Err(
            Verdict::partial(
                dir_end,
                "the directory is intact but image "@ + text::dec(i) + " runs to "@ + text::dec(end)
                    + ", past the "@ + text::dec(d.len() as int)
                    + " bytes available; length runs to the end of the directory"@,
            ).with("images"@, text::dec(count)).truncated(),
        )
    } else if holds_png(payload) {
        Ok(Images { end: bytes::larger(s.end, end), pngs: s.pngs + 1, ..s })
    } else if holds_dib(payload) {
        Ok(Images { end: bytes::larger(s.end, end), dibs: s.dibs + 1, ..s })
    } else {
        Err(
            Verdict::reject(
                "image "@ + text::dec(i) + " is neither a PNG nor a 40-byte BITMAPINFOHEADER"@,
            ),
        )
    }
}

/// The entries from the `i`-th on.
pub open spec fn entries_from(d: Seq<u8>, kind: int, count: int, i: int, s: Images) -> Verdict
    decreases count - i,
{
    if i >= count {
        Verdict::valid(s.end).with("images"@, text::dec(count)).with("kind"@, if kind == 1 {
            "icon"@
        } else {
            "cursor"@
        }).with("png_images"@, text::dec(s.pngs)).with("dib_images"@, text::dec(s.dibs))
    } else {
        match entry_at(d, kind, count, i, s) {
            Err(v) => v,
            Ok(s1) => entries_from(d, kind, count, i + 1, s1),
        }
    }
}

/// Whether the bytes that are there begin an icon or a cursor.
pub open spec fn begun(d: Seq<u8>) -> bool {
    bytes::may_hold(d, 0, 0) && bytes::may_hold(d, 1, 0) && (bytes::may_hold(d, 2, 1) || bytes::may_hold(d, 2, 2)) && bytes::may_hold(d, 3, 0)
}

fn begun_at(d: &[u8]) -> (r: bool)
    ensures
        r == begun(d@),
{
    bytes::may_be(d, 0, 0) && bytes::may_be(d, 1, 0) && (bytes::may_be(d, 2, 1) || bytes::may_be(d, 2, 2)) && bytes::may_be(d, 3, 0)
}

/// What the bytes of `d` are as an icon. One holding more than 64 images is
/// noise rather than an unusual file.
pub open spec fn verdict(d: Seq<u8>) -> Verdict {
    let kind = bytes::u16_le(d, 2);
    let count = bytes::u16_le(d, 4);
    let dir_end = 6 + 16 * count;
    if d.len() < 6 {
        Verdict::reject("shorter than an icon directory header"@).cut_if(begun(d))
    } else if bytes::u16_le(d, 0) != 0 {
        Verdict::reject("the reserved word is not zero"@)
    } else if kind != 1 && kind != 2 {
        Verdict::reject(
            "image type "@ + text::dec(kind) + " is neither icon (1) nor cursor (2)"@,
        )
    } else if count == 0 {
        Verdict::reject("the directory declares zero images"@)
    } else if count > 64 {
        Verdict::reject("the directory declares "@ + text::dec(count) + " images"@)
    } else if dir_end > d.len() {
        Verdict::reject("the directory extends past the available data"@).truncated()
    } else {
        entries_from(d, kind, count, 0, Images { end: dir_end, pngs: 0, dibs: 0 })
    }
}

/// The images of the entries read so far.
struct Tally {
    end: u64,
    pngs: u64,
    dibs: u64,
}

impl Tally {
    spec fn view(self) -> Images {
        Images { end: self.end as int, pngs: self.pngs as int, dibs: self.dibs as int }
    }

    /// Read the `i`-th entry.
    fn entry(&mut self, d: &[u8], kind: u16, count: u16, i: usize) -> (r: Option<Outcome>)
        requires
            i < count <= 64,
            6 + 16 * count <= d@.len(),
            old(self).pngs + old(self).dibs <= i,
        ensures
            match entry_at(d@, kind as int, count as int, i as int, old(self).view()) {
                Err(v) => r matches Some(o) && o@ == v,
                Ok(s) => r is None && final(self).view() == s && s.pngs + s.dibs <= i + 1,
            },
    {
        let at: usize = 6 + 16 * i;
        let dir_end: u64 = 6 + 16 * count as u64;
        if d[at + 3] != 0 {
            return Some(Outcome::reject("an entry's reserved byte is not zero"));
        }
        let planes: u16 = bytes::get16(d, at + 4, false);
        let bits: u16 = bytes::get16(d, at + 6, false);
        let size: u64 = bytes::get32(d, at + 8, false) as u64;
        let offset: u64 = bytes::get32(d, at + 12, false) as u64;
        // For a cursor these two fields are the hotspot instead.
        if kind == 1 && (planes > 1 || bits > 32) {
            return Some(
                Outcome::reject(
                    text::cat5(
                        "an entry declares ",
                        text::decimal(planes as u64).as_str(),
                        " planes at ",
                        text::decimal(bits as u64).as_str(),
                        " bits per pixel",
                    ).as_str(),
                ),
            );
        }
        if size == 0 {
            return Some(Outcome::reject("an entry declares a zero-byte image"));
        }
        if offset < dir_end {
            return Some(Outcome::reject("an entry's image data starts inside the directory"));
        }
        let end: u64 = offset + size;
        if end > d.len() as u64 {
            return Some(
                Outcome::partial(
                    dir_end,
                    text::cat7(
                        "the directory is intact but image ",
                        text::decimal(i as u64).as_str(),
                        " runs to ",
                        text::decimal(end).as_str(),
                        ", past the ",
                        text::decimal(d.len() as u64).as_str(),
                        " bytes available; length runs to the end of the directory",
                    ).as_str(),
                ).with("images", count).truncated(),
            );
        }
        let payload: &[u8] = slice_subrange(d, offset as usize, end as usize);
        let sig = png::signature_bytes();
        if bytes::stands_at(payload, &sig, 0) {
            self.pngs = self.pngs + 1;
        } else if bytes::le32(payload, 0) == Some(40u32) {
            self.dibs = self.dibs + 1;
        } else {
            return Some(
                Outcome::reject(
                    text::cat3(
                        "image ",
                        text::decimal(i as u64).as_str(),
                        " is neither a PNG nor a 40-byte BITMAPINFOHEADER",
                    ).as_str(),
                ),
            );
        }
        self.end = bytes::max64(self.end, end);
        None
    }
}

/// ICO: the end of the furthest image.
pub fn validate(d: &[u8]) -> (r: Outcome)
    ensures
        r@ == verdict(d@),
{
    if d.len() < 6 {
        return Outcome::reject("shorter than an icon directory header").cut_if(begun_at(d));
    }
    if bytes::get16(d, 0, false) != 0 {
        return Outcome::reject("the reserved word is not zero");
    }
    let kind: u16 = bytes::get16(d, 2, false);
    if kind != 1 && kind != 2 {
        return Outcome::reject(
            text::cat3(
                "image type ",
                text::decimal(kind as u64).as_str(),
                " is neither icon (1) nor cursor (2)",
            ).as_str(),
        );
    }
    let count: u16 = bytes::get16(d, 4, false);
    if count == 0 {
        // By far the most common chance match: zeros in free space.
        return Outcome::reject("the directory declares zero images");
    }
    if count > 64 {
        return Outcome::reject(
            text::cat3(
                "the directory declares ",
                text::decimal(count as u64).as_str(),
                " images",
            ).as_str(),
        );
    }
    let dir_end: usize = 6 + 16 * count as usize;
    if dir_end > d.len() {
        return Outcome::reject("the directory extends past the available data").truncated();
    }
    let mut t = Tally { end: dir_end as u64, pngs: 0, dibs: 0 };
    let mut i: usize = 0;
    while i < count as usize
        invariant
            i <= count <= 64,
            6 + 16 * count <= d@.len(),
            t.pngs + t.dibs <= i,
            verdict(d@) == entries_from(d@, kind as int, count as int, i as int, t.view()),
        decreases count - i,
    {
        if let Some(out) = t.entry(d, kind, count, i) {
            return out;
        }
        i += 1;
    }
    let label: &'static str = if kind == 1 {
        "icon"
    } else {
        "cursor"
    };
    Outcome::valid(t.end).with("images", count).with("kind", label).with(
        "png_images",
        t.pngs,
    ).with("dib_images", t.dibs)
}

proof fn entries_stay_inside(d: Seq<u8>, kind: int, count: int, i: int, s: Images)
    requires
        count >= 0,
        6 + 16 * count <= d.len(),
        0 <= s.end <= d.len(),
    ensures
        entries_from(d, kind, count, i, s).sound_for(d.len() as int),
    decreases count - i,
{
    if i < count {
        if let Ok(s1) = entry_at(d, kind, count, i, s) {
            entries_stay_inside(d, kind, count, i + 1, s1);
        }
    }
}

/// A rejection claims no length, a complete file is all there, and a damaged
/// one claims no more than was there unless it states its own size.
pub proof fn is_sound(d: Seq<u8>)
    ensures
        verdict(d).sound_for(d.len() as int),
{
    let count = bytes::u16_le(d, 4);
    if 6 + 16 * count <= d.len() {
        entries_stay_inside(
            d,
            bytes::u16_le(d, 2),
            count,
            0,
            Images { end: 6 + 16 * count, pngs: 0, dibs: 0 },
        );
    }
}

} // verus!
