//! PNG: a chunk walk with checksums verified.
//!
//! Every chunk carries a CRC-32 over its type and data, so a chunk that passes
//! was recovered intact, not merely plausible. A structurally complete PNG
//! with a failing checksum has been partially overwritten, and the chunk can
//! be named.

use vstd::prelude::*;
use vstd::slice::*;
use crate::bytes;
use crate::crc32;
use crate::text;
use super::{Outcome, Verdict};

verus! {

broadcast use bytes::slice_fits;

/// The eight bytes every PNG begins with.
pub const SIGNATURE: [u8; 8] = [0x89, 0x50, 0x4E, 0x47, 0x0D, 0x0A, 0x1A, 0x0A];

/// The eight bytes every PNG begins with.
pub open spec fn signature() -> Seq<u8> {
    seq![0x89u8, 0x50, 0x4E, 0x47, 0x0D, 0x0A, 0x1A, 0x0A]
}

/// The eight bytes every PNG begins with.
pub fn signature_bytes() -> (r: [u8; 8])
    ensures
        r@ == signature(),
{
    let r: [u8; 8] = [0x89, 0x50, 0x4E, 0x47, 0x0D, 0x0A, 0x1A, 0x0A];
    assert(r@ =~= signature());
    r
}

/// How far the chunks have been walked.
#[verifier::ext_equal]
pub struct Progress {
    pub at: int,
    pub saw_idat: bool,
    pub chunks: int,
    pub crc_errors: int,
    /// The first chunk whose checksum fails, and where it is.
    pub bad: Seq<char>,
    pub bad_at: int,
}

/// A walk that the data ends in the middle of.
pub open spec fn truncated_at(s: Progress, why: Seq<char>) -> Verdict {
    if s.saw_idat {
        Verdict::partial(s.at, "truncated: "@ + why).truncated()
    } else {
        Verdict::reject(why + ", before any image data"@).truncated()
    }
}

/// A walk that leaves the structure.
pub open spec fn broken_at(s: Progress, why: Seq<char>) -> Verdict {
    if s.saw_idat {
        Verdict::partial(s.at, "chunk chain broke: "@ + why)
    } else {
        Verdict::reject("chunk chain broke before any image data: "@ + why)
    }
}

/// Whether a byte is an ASCII letter.
pub open spec fn letter(b: u8) -> bool {
    0x41 <= b <= 0x5A || 0x61 <= b <= 0x7A
}

/// The type of the chunk at `at`.
pub open spec fn type_at(d: Seq<u8>, at: int) -> Seq<u8> {
    d.subrange(at + 4, at + 8)
}

pub open spec fn ihdr() -> Seq<u8> {
    seq![0x49u8, 0x48, 0x44, 0x52]
}

pub open spec fn idat() -> Seq<u8> {
    seq![0x49u8, 0x44, 0x41, 0x54]
}

pub open spec fn iend() -> Seq<u8> {
    seq![0x49u8, 0x45, 0x4E, 0x44]
}

/// What is wrong with the header chunk, which is the first, where anything is.
pub open spec fn header_wrong(d: Seq<u8>) -> Option<Seq<char>> {
    let depth = d[24] as int;
    let colour = d[25] as int;
    if type_at(d, 8) != ihdr() || bytes::u32_be(d, 8) != 13 {
        Some("the first chunk is not a 13-byte IHDR"@)
    } else if bytes::u32_be(d, 16) == 0 || bytes::u32_be(d, 20) == 0 {
        Some("IHDR declares a zero dimension"@)
    } else if depth != 1 && depth != 2 && depth != 4 && depth != 8 && depth != 16 {
        Some("IHDR declares bit depth "@ + text::dec(depth))
    } else if colour != 0 && colour != 2 && colour != 3 && colour != 4 && colour != 6 {
        Some("IHDR declares colour type "@ + text::dec(colour))
    } else if d[26] != 0 || d[27] != 0 || d[28] > 1 {
        Some("IHDR declares undefined compression, filter or interlace"@)
    } else {
        None
    }
}

/// What a PNG walked to its end comes to.
pub open spec fn concluded(d: Seq<u8>, s: Progress) -> Verdict {
    let width = text::dec(bytes::u32_be(d, 16));
    let height = text::dec(bytes::u32_be(d, 20));
    if !s.saw_idat {
        Verdict::reject("reached IEND with no image data"@)
    } else if s.crc_errors > 0 {
        // Structurally whole, demonstrably damaged.
        Verdict::partial(
            s.at,
            text::dec(s.crc_errors) + " chunk checksum(s) fail, first at "@ + s.bad
                + "; the file is complete but partially overwritten"@,
        ).with("width"@, width).with("height"@, height).with("chunks"@, text::dec(s.chunks)).with(
            "crc_errors"@,
            text::dec(s.crc_errors),
        ).with("damage_at"@, text::dec(s.bad_at))
    } else {
        Verdict::valid(s.at).with("width"@, width).with("height"@, height).with(
            "bit_depth"@,
            text::dec(d[24] as int),
        ).with("colour_type"@, text::dec(d[25] as int)).with("chunks"@, text::dec(s.chunks)).with(
            "crc_errors"@,
            text::dec(s.crc_errors),
        )
    }
}

/// Whether the checksum of the chunk at `at` with `len` bytes of data holds.
/// It covers the type and the data, but not the length.
pub open spec fn crc_holds(d: Seq<u8>, at: int, len: int) -> bool {
    bytes::u32_be(d, at + 8 + len) == crc32::checksum(d.subrange(at + 4, at + 8 + len))
}

/// The walk from `s` on.
pub open spec fn chunks_from(d: Seq<u8>, s: Progress) -> Verdict
    decreases d.len() - s.at,
{
    let len = bytes::u32_be(d, s.at);
    let ty = type_at(d, s.at);
    let end = s.at + 12 + len;
    if s.at < 0 || !bytes::fits(d, s.at, 4) {
        truncated_at(s, "ran out of data at a chunk length"@)
    } else if len > 0x7FFF_FFFF {
        broken_at(s, "a chunk length has its high bit set"@)
    } else if !bytes::fits(d, s.at + 4, 4) {
        truncated_at(s, "ran out of data at a chunk type"@)
    } else if !(letter(ty[0]) && letter(ty[1]) && letter(ty[2]) && letter(ty[3])) {
        broken_at(s, "a chunk type is not four ASCII letters"@)
    } else if end > d.len() {
        truncated_at(s, "a chunk extends past the available data"@)
    } else if s.chunks == 0 && header_wrong(d) is Some {
        Verdict::reject(header_wrong(d)->Some_0)
    } else if !crc_holds(d, s.at, len) && ty == ihdr() {
        // The dimensions just read cannot be trusted.
        Verdict::reject("the IHDR checksum fails; this is not an intact PNG"@)
    } else {
        let held = crc_holds(d, s.at, len);
        let first_bad = !held && s.crc_errors == 0;
        let next = Progress {
            at: end,
            saw_idat: s.saw_idat || ty == idat(),
            chunks: s.chunks + 1,
            crc_errors: if held {
                s.crc_errors
            } else {
                s.crc_errors + 1
            },
            bad: if first_bad {
                text::ascii(ty) + "@"@ + text::dec(s.at)
            } else {
                s.bad
            },
            bad_at: if first_bad {
                s.at
            } else {
                s.bad_at
            },
        };
        if ty == iend() {
            concluded(d, next)
        } else {
            chunks_from(d, next)
        }
    }
}

/// What the bytes of `d` are as a PNG.
pub open spec fn verdict(d: Seq<u8>) -> Verdict {
    if d.len() < 8 {
        Verdict::reject("shorter than the PNG signature"@).cut_if(bytes::agrees(d, signature(), 0))
    } else if !bytes::begins(d, signature()) {
        Verdict::reject("signature mismatch"@)
    } else {
        chunks_from(
            d,
            Progress {
                at: 8,
                saw_idat: false,
                chunks: 0,
                crc_errors: 0,
                bad: Seq::empty(),
                bad_at: 0,
            },
        )
    }
}

fn is_letter(b: u8) -> (r: bool)
    ensures
        r == letter(b),
{
    (0x41 <= b && b <= 0x5A) || (0x61 <= b && b <= 0x7A)
}

fn truncated(at: usize, saw_idat: bool, why: &str, Ghost(s): Ghost<Progress>) -> (r: Outcome)
    requires
        s.at == at,
        s.saw_idat == saw_idat,
    ensures
        r@ == truncated_at(s, why@),
{
    if saw_idat {
        Outcome::partial(at as u64, text::cat2("truncated: ", why).as_str()).truncated()
    } else {
        Outcome::reject(text::cat2(why, ", before any image data").as_str()).truncated()
    }
}

fn structural(at: usize, saw_idat: bool, why: &str, Ghost(s): Ghost<Progress>) -> (r: Outcome)
    requires
        s.at == at,
        s.saw_idat == saw_idat,
    ensures
        r@ == broken_at(s, why@),
{
    if saw_idat {
        Outcome::partial(at as u64, text::cat2("chunk chain broke: ", why).as_str())
    } else {
        Outcome::reject(text::cat2("chunk chain broke before any image data: ", why).as_str())
    }
}

/// What is wrong with the header chunk, where anything is.
fn check_header(d: &[u8]) -> (r: Option<Outcome>)
    requires
        d@.len() >= 20 + bytes::u32_be(d@, 8),
        d@.len() >= 20,
    ensures
        match header_wrong(d@) {
            Some(why) => r matches Some(o) && o@ == Verdict::reject(why),
            None => r is None,
        },
{
    let want: [u8; 4] = [0x49, 0x48, 0x44, 0x52];
    assert(want@ =~= ihdr());
    if !bytes::same(slice_subrange(d, 12, 16), &want) || bytes::get32(d, 8, true) != 13 {
        return Some(Outcome::reject("the first chunk is not a 13-byte IHDR"));
    }
    if bytes::get32(d, 16, true) == 0 || bytes::get32(d, 20, true) == 0 {
        return Some(Outcome::reject("IHDR declares a zero dimension"));
    }
    let depth: u8 = d[24];
    if depth != 1 && depth != 2 && depth != 4 && depth != 8 && depth != 16 {
        return Some(
            Outcome::reject(
                text::cat2(
                    "IHDR declares bit depth ",
                    text::decimal(depth as u64).as_str(),
                ).as_str(),
            ),
        );
    }
    let colour: u8 = d[25];
    if colour != 0 && colour != 2 && colour != 3 && colour != 4 && colour != 6 {
        return Some(
            Outcome::reject(
                text::cat2(
                    "IHDR declares colour type ",
                    text::decimal(colour as u64).as_str(),
                ).as_str(),
            ),
        );
    }
    if d[26] != 0 || d[27] != 0 || d[28] > 1 {
        return Some(
            Outcome::reject("IHDR declares undefined compression, filter or interlace"),
        );
    }
    None
}

/// PNG: the end of the IEND chunk.
pub fn validate(d: &[u8]) -> (r: Outcome)
    ensures
        r@ == verdict(d@),
{
    let sig = signature_bytes();
    if d.len() < 8 {
        return Outcome::reject("shorter than the PNG signature").cut_if(
            bytes::agrees_at(d, &sig, 0),
        );
    }
    if !bytes::stands_at(d, &sig, 0) {
        return Outcome::reject("signature mismatch");
    }
    let t_ihdr: [u8; 4] = [0x49, 0x48, 0x44, 0x52];
    let t_idat: [u8; 4] = [0x49, 0x44, 0x41, 0x54];
    let t_iend: [u8; 4] = [0x49, 0x45, 0x4E, 0x44];
    assert(t_ihdr@ =~= ihdr());
    assert(t_idat@ =~= idat());
    assert(t_iend@ =~= iend());
    let mut i: usize = 8;
    let mut saw_idat: bool = false;
    let mut chunks: u64 = 0;
    let mut crc_errors: u64 = 0;
    let mut bad = String::new();
    let mut bad_at: usize = 0;
    loop
        invariant
            8 <= i <= d@.len(),
            chunks <= i,
            crc_errors <= chunks,
            chunks == 0 <==> i == 8,
            chunks > 0 ==> d@.len() >= 33,
            t_ihdr@ == ihdr(),
            t_idat@ == idat(),
            t_iend@ == iend(),
            verdict(d@) == chunks_from(
                d@,
                Progress {
                    at: i as int,
                    saw_idat,
                    chunks: chunks as int,
                    crc_errors: crc_errors as int,
                    bad: bad@,
                    bad_at: bad_at as int,
                },
            ),
        decreases d@.len() - i,
    {
        let ghost s = Progress {
            at: i as int,
            saw_idat,
            chunks: chunks as int,
            crc_errors: crc_errors as int,
            bad: bad@,
            bad_at: bad_at as int,
        };
        let len: usize = match bytes::be32(d, i) {
            Some(n) => {
                if n > 0x7FFF_FFFF {
                    return structural(
                        i,
                        saw_idat,
                        "a chunk length has its high bit set",
                        Ghost(s),
                    );
                }
                n as usize
            },
            None => {
                return truncated(i, saw_idat, "ran out of data at a chunk length", Ghost(s));
            },
        };
        if !bytes::has(d, i + 4, 4) {
            return truncated(i, saw_idat, "ran out of data at a chunk type", Ghost(s));
        }
        let ty: &[u8] = slice_subrange(d, i + 4, i + 8);
        if !(is_letter(ty[0]) && is_letter(ty[1]) && is_letter(ty[2]) && is_letter(ty[3])) {
            return structural(i, saw_idat, "a chunk type is not four ASCII letters", Ghost(s));
        }
        if d.len() - i < 12 || d.len() - i - 12 < len {
            return truncated(i, saw_idat, "a chunk extends past the available data", Ghost(s));
        }
        if chunks == 0 {
            if let Some(out) = check_header(d) {
                return out;
            }
        }
        let want: u32 = bytes::get32(d, i + 8 + len, true);
        let data: &[u8] = slice_subrange(d, i + 8, i + 8 + len);
        let parts: [&[u8]; 2] = [ty, data];
        let got: u32 = crc32::crc32_parts(&parts);
        proof {
            assert(parts@.drop_last().drop_last() =~= Seq::<&[u8]>::empty());
            assert(parts@.drop_last().last() == ty && parts@.last() == data);
            reveal_with_fuel(crc32::joined, 3);
            assert(crc32::joined(parts@) =~= d@.subrange(i + 4, i + 8 + len));
        }
        let is_ihdr: bool = bytes::same(ty, &t_ihdr);
        if want != got {
            if is_ihdr {
                return Outcome::reject("the IHDR checksum fails; this is not an intact PNG");
            }
            if crc_errors == 0 {
                bad = text::cat3(
                    text::from_ascii(ty).as_str(),
                    "@",
                    text::decimal(i as u64).as_str(),
                );
                bad_at = i;
            }
            crc_errors += 1;
        }
        if bytes::same(ty, &t_idat) {
            saw_idat = true;
        }
        chunks += 1;
        let ended: bool = bytes::same(ty, &t_iend);
        i = i + 12 + len;
        if ended {
            if !saw_idat {
                return Outcome::reject("reached IEND with no image data");
            }
            let width: u32 = bytes::get32(d, 16, true);
            let height: u32 = bytes::get32(d, 20, true);
            if crc_errors > 0 {
                return Outcome::partial(
                    i as u64,
                    text::cat4(
                        text::decimal(crc_errors).as_str(),
                        " chunk checksum(s) fail, first at ",
                        bad.as_str(),
                        "; the file is complete but partially overwritten",
                    ).as_str(),
                ).with("width", width).with("height", height).with("chunks", chunks).with(
                    "crc_errors",
                    crc_errors,
                ).with("damage_at", bad_at);
            }
            return Outcome::valid(i as u64).with("width", width).with("height", height).with(
                "bit_depth",
                d[24],
            ).with("colour_type", d[25]).with("chunks", chunks).with("crc_errors", crc_errors);
        }
    }
}

proof fn chunks_stay_inside(d: Seq<u8>, s: Progress)
    requires
        0 <= s.at <= d.len(),
    ensures
        chunks_from(d, s).sound_for(d.len() as int),
    decreases d.len() - s.at,
{
    let len = bytes::u32_be(d, s.at);
    let ty = type_at(d, s.at);
    let end = s.at + 12 + len;
    if bytes::fits(d, s.at, 4) && end <= d.len() {
        let held = crc_holds(d, s.at, len);
        let first_bad = !held && s.crc_errors == 0;
        let next = Progress {
            at: end,
            saw_idat: s.saw_idat || ty == idat(),
            chunks: s.chunks + 1,
            crc_errors: if held {
                s.crc_errors
            } else {
                s.crc_errors + 1
            },
            bad: if first_bad {
                text::ascii(ty) + "@"@ + text::dec(s.at)
            } else {
                s.bad
            },
            bad_at: if first_bad {
                s.at
            } else {
                s.bad_at
            },
        };
        chunks_stay_inside(d, next);
    }
}

/// A rejection claims no length, a complete file is all there, and a damaged
/// one claims no more than was there unless it states its own size.
pub proof fn is_sound(d: Seq<u8>)
    ensures
        verdict(d).sound_for(d.len() as int),
{
    if d.len() >= 8 {
        chunks_stay_inside(
            d,
            Progress {
                at: 8,
                saw_idat: false,
                chunks: 0,
                crc_errors: 0,
                bad: Seq::empty(),
                bad_at: 0,
            },
        );
    }
}

// ---------------------------------------------------------------------------
// Damage
// ---------------------------------------------------------------------------

/// Whether the chunk at `at` is one of those from `from` on.
pub open spec fn chunk_from(d: Seq<u8>, from: int, at: int) -> bool
    decreases d.len() - from,
{
    let end = from + 12 + bytes::u32_be(d, from);
    &&& 0 <= from
    &&& end <= d.len()
    &&& from == at || (type_at(d, from) != iend() && chunk_from(d, end, at))
}

/// The walk once it is past the chunk at its position.
spec fn past(d: Seq<u8>, s: Progress) -> Progress {
    let len = bytes::u32_be(d, s.at);
    let ty = type_at(d, s.at);
    let held = crc_holds(d, s.at, len);
    let first_bad = !held && s.crc_errors == 0;
    Progress {
        at: s.at + 12 + len,
        saw_idat: s.saw_idat || ty == idat(),
        chunks: s.chunks + 1,
        crc_errors: if held {
            s.crc_errors
        } else {
            s.crc_errors + 1
        },
        bad: if first_bad {
            text::ascii(ty) + "@"@ + text::dec(s.at)
        } else {
            s.bad
        },
        bad_at: if first_bad {
            s.at
        } else {
            s.bad_at
        },
    }
}

/// What a walk that comes out valid finds at its position.
proof fn valid_so_far(d: Seq<u8>, s: Progress)
    requires
        0 <= s.crc_errors,
        chunks_from(d, s).status == super::Status::Valid,
    ensures
        0 <= s.at,
        s.at + 12 + bytes::u32_be(d, s.at) <= d.len(),
        s.crc_errors == 0,
        crc_holds(d, s.at, bytes::u32_be(d, s.at)),
        s.chunks == 0 ==> header_wrong(d) is None,
        type_at(d, s.at) != iend() ==> chunks_from(d, past(d, s)) == chunks_from(d, s),
        type_at(d, s.at) == iend() ==> concluded(d, past(d, s)) == chunks_from(d, s),
    decreases d.len() - s.at,
{
    if type_at(d, s.at) != iend() {
        valid_so_far(d, past(d, s));
    }
}

/// The walk with one damaged chunk behind it.
spec fn damaged(s: Progress, ty: Seq<u8>, at: int) -> Progress {
    Progress { crc_errors: 1, bad: text::ascii(ty) + "@"@ + text::dec(at), bad_at: at, ..s }
}

/// Whether `v` names the one damaged chunk, of type `ty` at `at`, of a file of
/// `length` bytes.
pub open spec fn names_the_damage(v: Verdict, ty: Seq<u8>, at: int, length: int) -> bool {
    &&& v.status == super::Status::Partial
    &&& v.length == length
    &&& !v.ran_out
    &&& v.tells("crc_errors"@, text::dec(1))
    &&& v.tells("damage_at"@, text::dec(at))
    &&& v.detail == text::dec(1) + " chunk checksum(s) fail, first at "@ + (text::ascii(ty) + "@"@
        + text::dec(at)) + "; the file is complete but partially overwritten"@
}

proof fn damage_is_told(d: Seq<u8>, s: Progress, ty: Seq<u8>, at: int)
    requires
        s.saw_idat,
    ensures
        names_the_damage(concluded(d, damaged(s, ty, at)), ty, at, s.at),
{
    reveal_strlit("width");
    reveal_strlit("height");
    reveal_strlit("chunks");
    reveal_strlit("crc_errors");
    reveal_strlit("damage_at");
    let e = concluded(d, damaged(s, ty, at)).evidence;
    assert(e.len() == 5);
    assert("width"@.len() != "crc_errors"@.len());
    assert("height"@.len() != "crc_errors"@.len());
    assert("chunks"@.len() != "crc_errors"@.len());
    assert("damage_at"@.len() == 9);
    assert(e[3] == ("crc_errors"@, text::dec(1)));
    assert(e[4] == ("damage_at"@, text::dec(at)));
}

/// Past the damage the walk goes as it did.
proof fn after_the_damage(d: Seq<u8>, e: Seq<u8>, s: Progress, ty: Seq<u8>, at: int, i: int)
    requires
        e.len() == d.len(),
        forall|k: int| 0 <= k < d.len() && k != i ==> #[trigger] e[k] == d[k],
        33 <= i < s.at,
        s.chunks > 0,
        0 <= s.crc_errors,
        chunks_from(d, s).status == super::Status::Valid,
    ensures
        names_the_damage(chunks_from(e, damaged(s, ty, at)), ty, at, chunks_from(d, s).length),
    decreases d.len() - s.at,
{
    valid_so_far(d, s);
    let len = bytes::u32_be(d, s.at);
    assert(e.subrange(s.at + 4, s.at + 8) =~= d.subrange(s.at + 4, s.at + 8));
    assert(e.subrange(s.at + 4, s.at + 8 + len) =~= d.subrange(s.at + 4, s.at + 8 + len));
    let next = past(d, s);
    assert(past(e, damaged(s, ty, at)) == damaged(next, ty, at));
    if type_at(d, s.at) == iend() {
        damage_is_told(e, next, ty, at);
    } else {
        after_the_damage(d, e, next, ty, at, i);
    }
}

/// Up to the damage the walk goes as it did.
proof fn up_to_the_damage(d: Seq<u8>, s: Progress, at: int, i: int, b: u8)
    requires
        chunk_from(d, s.at, at),
        type_at(d, at) != ihdr(),
        at + 8 <= i < at + 8 + bytes::u32_be(d, at),
        b != d[i],
        8 <= s.at,
        0 <= s.chunks,
        s.chunks == 0 ==> s.at == 8,
        s.chunks > 0 ==> s.at >= 33,
        0 <= s.crc_errors,
        chunks_from(d, s).status == super::Status::Valid,
    ensures
        names_the_damage(
            chunks_from(d.update(i, b), s),
            type_at(d, at),
            at,
            chunks_from(d, s).length,
        ),
    decreases d.len() - s.at,
{
    let e = d.update(i, b);
    valid_so_far(d, s);
    let len = bytes::u32_be(d, s.at);
    let next = past(d, s);
    if s.at == at {
        let body = d.subrange(at + 4, at + 8 + len);
        assert(e.subrange(at + 4, at + 8) =~= d.subrange(at + 4, at + 8));
        assert(e.subrange(at + 4, at + 8 + len) =~= body.update(i - at - 4, b));
        crc32::one_byte_is_noticed(body, i - at - 4, b);
        assert(!crc_holds(e, at, len));
        assert(past(e, s) == damaged(next, type_at(d, at), at));
        if type_at(d, at) == iend() {
            damage_is_told(e, next, type_at(d, at), at);
        } else {
            after_the_damage(d, e, next, type_at(d, at), at, i);
        }
    } else {
        chunks_come_later(d, next.at, at);
        assert(e.subrange(s.at + 4, s.at + 8) =~= d.subrange(s.at + 4, s.at + 8));
        assert(e.subrange(s.at + 4, s.at + 8 + len) =~= d.subrange(s.at + 4, s.at + 8 + len));
        if s.chunks == 0 {
            assert(header_wrong(e) == header_wrong(d));
        }
        assert(past(e, s) == next);
        up_to_the_damage(d, next, at, i, b);
    }
}

proof fn chunks_come_later(d: Seq<u8>, from: int, at: int)
    requires
        chunk_from(d, from, at),
    ensures
        from <= at,
        at + 12 + bytes::u32_be(d, at) <= d.len(),
    decreases d.len() - from,
{
    if from != at {
        chunks_come_later(d, from + 12 + bytes::u32_be(d, from), at);
    }
}

/// One damaged byte in the data of a chunk of a complete file, other than its
/// header chunk, is told as just that: one checksum that fails, at that chunk,
/// in a file of the same length.
pub proof fn one_damaged_byte_is_named(d: Seq<u8>, at: int, i: int, b: u8)
    requires
        verdict(d).status == super::Status::Valid,
        chunk_from(d, 8, at),
        type_at(d, at) != ihdr(),
        at + 8 <= i < at + 8 + bytes::u32_be(d, at),
        b != d[i],
    ensures
        names_the_damage(verdict(d.update(i, b)), type_at(d, at), at, verdict(d).length),
{
    let e = d.update(i, b);
    chunks_come_later(d, 8, at);
    assert(e.subrange(0, 8) =~= d.subrange(0, 8));
    up_to_the_damage(
        d,
        Progress {
            at: 8,
            saw_idat: false,
            chunks: 0,
            crc_errors: 0,
            bad: Seq::empty(),
            bad_at: 0,
        },
        at,
        i,
        b,
    );
}

} // verus!
