//! Whatever follows a complete file on the disk is no part of it; and where a
//! validator finds something that cannot belong, more bytes do not change that.

use vstd::prelude::*;
use crate::bytes;
use crate::search;
use super::Status;
use super::{
    archive, bmp, gif, ico, jpeg, mp4, pdf, pe, png, riff, sqlite, structured, zip,
};

verus! {

/// Whether `e` begins with `d`.
pub open spec fn goes_on(d: Seq<u8>, e: Seq<u8>) -> bool {
    &&& d.len() <= e.len()
    &&& forall|i: int| 0 <= i < d.len() ==> #[trigger] e[i] == d[i]
}

pub(crate) proof fn same_part(d: Seq<u8>, e: Seq<u8>, from: int, to: int)
    requires
        goes_on(d, e),
        0 <= from <= to <= d.len(),
    ensures
        e.subrange(from, to) == d.subrange(from, to),
{
    assert(e.subrange(from, to) =~= d.subrange(from, to));
}

proof fn same_head(d: Seq<u8>, e: Seq<u8>, head: Seq<u8>)
    requires
        goes_on(d, e),
        head.len() <= d.len(),
    ensures
        bytes::begins(e, head) == bytes::begins(d, head),
{
    same_part(d, e, 0, head.len() as int);
}

pub(crate) proof fn stays_off(d: Seq<u8>, e: Seq<u8>, mark: Seq<u8>, at: int)
    requires
        goes_on(d, e),
        0 <= at,
        !bytes::agrees(d, mark, at),
    ensures
        !bytes::agrees(e, mark, at),
        !bytes::occurs_at(e, mark, at),
{
    let i = choose|i: int|
        0 <= i < mark.len() && at + i < d.len() && d[at + i] != #[trigger] mark[i];
    assert(e[at + i] == d[at + i]);
    if bytes::occurs_at(e, mark, at) {
        assert(e.subrange(at, at + mark.len())[i] == e[at + i]);
    }
}

/// A 7z archive that is judged for anything but the end of the data is judged
/// the same whatever follows it.
/// Data that ends inside the header, and begins wrongly, stays wrong.
pub proof fn after_a_7z(d: Seq<u8>, e: Seq<u8>)
    requires
        goes_on(d, e),
        !archive::sevenz_verdict(d).ran_out,
    ensures
        d.len() >= 32 ==> archive::sevenz_verdict(e) == archive::sevenz_verdict(d),
        archive::sevenz_verdict(d).contradicts() ==> archive::sevenz_verdict(e).contradicts(),
{
    if d.len() < 32 {
        stays_off(d, e, archive::sevenz_head(), 0);
    } else {
        same_head(d, e, archive::sevenz_head());
        same_part(d, e, 12, 32);
    }
}

/// A cabinet that is judged for anything but the end of the data is judged the
/// same whatever follows it.
/// Data that ends inside the header, and begins wrongly, stays wrong.
pub proof fn after_a_cab(d: Seq<u8>, e: Seq<u8>)
    requires
        goes_on(d, e),
        !archive::cab_verdict(d).ran_out,
    ensures
        d.len() >= 36 ==> archive::cab_verdict(e) == archive::cab_verdict(d),
        archive::cab_verdict(d).contradicts() ==> archive::cab_verdict(e).contradicts(),
{
    if d.len() < 36 {
        stays_off(d, e, archive::cab_head(), 0);
    } else {
        same_head(d, e, archive::cab_head());
    }
}

/// A bitmap that is judged for anything but the end of the data is judged the
/// same whatever follows it.
/// Data that ends inside the header, and begins wrongly, stays wrong.
pub proof fn after_a_bmp(d: Seq<u8>, e: Seq<u8>)
    requires
        goes_on(d, e),
        !bmp::verdict(d).ran_out,
    ensures
        d.len() >= 18 ==> bmp::verdict(e) == bmp::verdict(d),
        bmp::verdict(d).contradicts() ==> bmp::verdict(e).contradicts(),
{
}

/// An event log that is judged for anything but the end of the data is judged
/// the same whatever follows it.
/// Data that ends inside the header, and begins wrongly, stays wrong.
pub proof fn after_an_evtx(d: Seq<u8>, e: Seq<u8>)
    requires
        goes_on(d, e),
        !structured::evtx_verdict(d).ran_out,
    ensures
        d.len() >= 128 ==> structured::evtx_verdict(e) == structured::evtx_verdict(d),
        structured::evtx_verdict(d).contradicts() ==> structured::evtx_verdict(e).contradicts(),
{
    if d.len() < 128 {
        stays_off(d, e, structured::evtx_head(), 0);
    } else {
        same_head(d, e, structured::evtx_head());
    }
}

/// A registry hive that is judged for anything but the end of the data is judged
/// the same whatever follows it.
/// Data that ends inside the header, and begins wrongly, stays wrong.
pub proof fn after_a_hive(d: Seq<u8>, e: Seq<u8>)
    requires
        goes_on(d, e),
        !structured::hive_verdict(d).ran_out,
    ensures
        d.len() >= 48 ==> structured::hive_verdict(e) == structured::hive_verdict(d),
        structured::hive_verdict(d).contradicts() ==> structured::hive_verdict(e).contradicts(),
{
    if d.len() < 48 {
        stays_off(d, e, structured::hive_head(), 0);
    } else {
        same_head(d, e, structured::hive_head());
    }
}

proof fn same_sections(d: Seq<u8>, e: Seq<u8>, i: int, at: int)
    requires
        goes_on(d, e),
        at >= 0,
        structured::psd_sections(d, i, at) is Ok,
    ensures
        structured::psd_sections(e, i, at) == structured::psd_sections(d, i, at),
        structured::psd_sections(d, i, at)->Ok_0 >= 0,
    decreases 3 - i,
{
    if i < 3 {
        same_sections(d, e, i + 1, at + 4 + bytes::u32_be(d, at));
    }
}

proof fn stopped_sections(d: Seq<u8>, i: int, at: int)
    ensures
        structured::psd_sections(d, i, at) matches Err(v) ==> v.ran_out,
    decreases 3 - i,
{
    if i < 3 {
        stopped_sections(d, i + 1, at + 4 + bytes::u32_be(d, at));
    }
}

/// A Photoshop file that is judged for anything but the end of the data is
/// judged the same whatever follows it.
/// Data that ends inside the header, and begins wrongly, stays wrong.
pub proof fn after_a_psd(d: Seq<u8>, e: Seq<u8>)
    requires
        goes_on(d, e),
        !structured::psd_verdict(d).ran_out,
    ensures
        d.len() >= 34 ==> structured::psd_verdict(e) == structured::psd_verdict(d),
        structured::psd_verdict(d).contradicts() ==> structured::psd_verdict(e).contradicts(),
{
    if d.len() < 34 {
        stays_off(d, e, structured::psd_head(), 0);
    } else {
        same_head(d, e, structured::psd_head());
        assert forall|i: int| 6 <= i < 12 implies e[i] == d[i] by {}
        stopped_sections(d, 0, 26);
        if structured::psd_sections(d, 0, 26) is Ok {
            same_sections(d, e, 0, 26);
        }
    }
}

proof fn same_document(
    d: Seq<u8>,
    e: Seq<u8>,
    i: int,
    depth: int,
    groups: int,
    brace: int,
)
    requires
        goes_on(d, e),
        d.len() > 5,
        !structured::rtf_from(d, i, depth, groups, brace).ran_out,
    ensures
        structured::rtf_from(e, i, depth, groups, brace) == structured::rtf_from(
            d,
            i,
            depth,
            groups,
            brace,
        ),
    decreases d.len() + 1 - i,
{
    if 0 <= i < d.len() {
        if d[i] == 0x5C {
            same_document(d, e, i + 2, depth, groups, brace);
        } else if d[i] == 0x7B {
            same_document(d, e, i + 1, depth + 1, groups + 1, i + 1);
        } else if d[i] == 0x7D {
            if depth > 1 {
                same_document(d, e, i + 1, depth - 1, groups, i + 1);
            }
        } else {
            same_document(d, e, i + 1, depth, groups, brace);
        }
    }
}

/// An RTF document that is judged for anything but the end of the data is judged
/// the same whatever follows it.
/// Data that ends inside the header, and begins wrongly, stays wrong.
pub proof fn after_an_rtf(d: Seq<u8>, e: Seq<u8>)
    requires
        goes_on(d, e),
        !structured::rtf_verdict(d).ran_out,
    ensures
        d.len() >= 6 ==> structured::rtf_verdict(e) == structured::rtf_verdict(d),
        structured::rtf_verdict(d).contradicts() ==> structured::rtf_verdict(e).contradicts(),
{
    if d.len() < 6 {
        stays_off(d, e, structured::rtf_head(), 0);
    } else {
        same_head(d, e, structured::rtf_head());
        if bytes::begins(d, structured::rtf_head()) && 0x30 <= d[5] <= 0x39 {
            same_document(d, e, 0, 0, 0, 0);
        }
    }
}

proof fn same_chunks(d: Seq<u8>, e: Seq<u8>, s: png::Progress)
    requires
        goes_on(d, e),
        s.at >= 0,
        s.chunks >= 0,
        s.chunks == 0 ==> s.at == 8,
        s.chunks > 0 ==> d.len() >= 33,
        !png::chunks_from(d, s).ran_out,
    ensures
        png::chunks_from(e, s) == png::chunks_from(d, s),
    decreases d.len() - s.at,
{
    let len = bytes::u32_be(d, s.at);
    let end = s.at + 12 + len;
    if len <= 0x7FFF_FFFF {
        same_part(d, e, s.at + 4, s.at + 8);
        let ty = png::type_at(d, s.at);
        if png::letter(ty[0]) && png::letter(ty[1]) && png::letter(ty[2]) && png::letter(ty[3]) {
            same_part(d, e, s.at + 4, s.at + 8 + len);
            if s.chunks == 0 {
                same_part(d, e, 12, 16);
                assert(png::header_wrong(e) == png::header_wrong(d));
            }
            assert(png::crc_holds(e, s.at, len) == png::crc_holds(d, s.at, len));
            let held = png::crc_holds(d, s.at, len);
            let first_bad = !held && s.crc_errors == 0;
            let next = png::Progress {
                at: end,
                saw_idat: s.saw_idat || ty == png::idat(),
                chunks: s.chunks + 1,
                crc_errors: if held {
                    s.crc_errors
                } else {
                    s.crc_errors + 1
                },
                bad: if first_bad {
                    crate::text::ascii(ty) + "@"@ + crate::text::dec(s.at)
                } else {
                    s.bad
                },
                bad_at: if first_bad {
                    s.at
                } else {
                    s.bad_at
                },
            };
            if !(s.chunks == 0 && png::header_wrong(d) is Some) && (held || ty != png::ihdr())
                && ty != png::iend() {
                same_chunks(d, e, next);
            }
        }
    }
}

/// A PNG that is judged for anything but the end of the data is judged the same
/// whatever follows it.
/// Data that ends inside the header, and begins wrongly, stays wrong.
pub proof fn after_a_png(d: Seq<u8>, e: Seq<u8>)
    requires
        goes_on(d, e),
        !png::verdict(d).ran_out,
    ensures
        d.len() >= 8 ==> png::verdict(e) == png::verdict(d),
        png::verdict(d).contradicts() ==> png::verdict(e).contradicts(),
{
    if d.len() < 8 {
        stays_off(d, e, png::signature(), 0);
    } else {
        same_head(d, e, png::signature());
        if bytes::begins(d, png::signature()) {
            same_chunks(
                d,
                e,
                png::Progress {
                    at: 8,
                    saw_idat: false,
                    chunks: 0,
                    crc_errors: 0,
                    bad: Seq::empty(),
                    bad_at: 0,
                },
            );
        }
    }
}

// ---------------------------------------------------------------------------
// GIF
// ---------------------------------------------------------------------------

proof fn same_sub_blocks(d: Seq<u8>, e: Seq<u8>, at: int)
    requires
        goes_on(d, e),
        gif::past_sub_blocks(d, at) is Some,
    ensures
        gif::past_sub_blocks(e, at) == gif::past_sub_blocks(d, at),
    decreases d.len() - at,
{
    if d[at] != 0 {
        same_sub_blocks(d, e, at + 1 + d[at]);
    }
}

proof fn same_blocks(d: Seq<u8>, e: Seq<u8>, at: int, images: int, extensions: int)
    requires
        goes_on(d, e),
        d.len() >= 13,
        at >= 0,
        images >= 0,
        !gif::blocks_from(d, at, images, extensions).ran_out,
    ensures
        gif::blocks_from(e, at, images, extensions) == gif::blocks_from(
            d,
            at,
            images,
            extensions,
        ),
    decreases d.len() - at,
{
    if d[at] == 0x2C {
        let lzw = at + 10 + gif::colour_table(d[at + 9]);
        if gif::image_block(d, at + 1, images) is Ok {
            same_sub_blocks(d, e, lzw + 1);
            gif::sub_blocks_move_on(d, lzw + 1);
            let next = gif::past_sub_blocks(d, lzw + 1)->Some_0;
            assert(gif::image_block(d, at + 1, images) == Ok::<int, super::Verdict>(next));
            assert(gif::image_block(e, at + 1, images) == Ok::<int, super::Verdict>(next));
            same_blocks(d, e, next, images + 1, extensions);
        }
    } else if d[at] == 0x21 {
        same_sub_blocks(d, e, at + 2);
        gif::sub_blocks_move_on(d, at + 2);
        let next = gif::past_sub_blocks(d, at + 2)->Some_0;
        assert(gif::extension_block(d, at + 1, images) == Ok::<int, super::Verdict>(next));
        assert(gif::extension_block(e, at + 1, images) == Ok::<int, super::Verdict>(next));
        same_blocks(d, e, next, images, extensions + 1);
    }
}

/// A GIF that is judged for anything but the end of the data is judged the same
/// whatever follows it.
/// Data that ends inside the header, and begins wrongly, stays wrong.
pub proof fn after_a_gif(d: Seq<u8>, e: Seq<u8>)
    requires
        goes_on(d, e),
        !gif::verdict(d).ran_out,
    ensures
        d.len() >= 13 ==> gif::verdict(e) == gif::verdict(d),
        gif::verdict(d).contradicts() ==> gif::verdict(e).contradicts(),
{
    if !gif::blocks_from(d, 13 + gif::colour_table(d[10]), 0, 0).ran_out {
        same_blocks(d, e, 13 + gif::colour_table(d[10]), 0, 0);
    }
}

// ---------------------------------------------------------------------------
// Icons
// ---------------------------------------------------------------------------

proof fn same_images(d: Seq<u8>, e: Seq<u8>, kind: int, count: int, i: int, s: ico::Images)
    requires
        goes_on(d, e),
        0 <= i <= count,
        6 + 16 * count <= d.len(),
        !ico::entries_from(d, kind, count, i, s).ran_out,
    ensures
        ico::entries_from(e, kind, count, i, s) == ico::entries_from(d, kind, count, i, s),
    decreases count - i,
{
    if i < count {
        let at = 6 + 16 * i;
        let size = bytes::u32_le(d, at + 8);
        let offset = bytes::u32_le(d, at + 12);
        assert(at + 16 <= d.len());
        assert(bytes::u32_le(e, at + 8) == size && bytes::u32_le(e, at + 12) == offset);
        match ico::entry_at(d, kind, count, i, s) {
            Ok(s1) => {
                same_part(d, e, offset, offset + size);
                assert(ico::entry_at(e, kind, count, i, s) == ico::entry_at(d, kind, count, i, s));
                same_images(d, e, kind, count, i + 1, s1);
            },
            Err(v) => {
                if offset + size <= d.len() {
                    same_part(d, e, offset, offset + size);
                }
                assert(ico::entry_at(e, kind, count, i, s) == ico::entry_at(d, kind, count, i, s));
            },
        }
    }
}

/// An icon that is judged for anything but the end of the data is judged the
/// same whatever follows it.
/// Data that ends inside the header, and begins wrongly, stays wrong.
pub proof fn after_an_ico(d: Seq<u8>, e: Seq<u8>)
    requires
        goes_on(d, e),
        !ico::verdict(d).ran_out,
    ensures
        d.len() >= 6 ==> ico::verdict(e) == ico::verdict(d),
        ico::verdict(d).contradicts() ==> ico::verdict(e).contradicts(),
{
    let kind = bytes::u16_le(d, 2);
    let count = bytes::u16_le(d, 4);
    let s = ico::Images { end: 6 + 16 * count, pngs: 0, dibs: 0 };
    if 6 + 16 * count <= d.len() && !ico::entries_from(d, kind, count, 0, s).ran_out {
        same_images(d, e, kind, count, 0, s);
    }
}

// ---------------------------------------------------------------------------
// Windows executables
// ---------------------------------------------------------------------------

pub(crate) proof fn same_pe_sections(
    d: Seq<u8>,
    e: Seq<u8>,
    table: int,
    n: int,
    headers: int,
    i: int,
    end: int,
)
    requires
        goes_on(d, e),
        0 <= table,
        0 <= i,
        table + 40 * n <= d.len(),
    ensures
        pe::sections_from(e, table, n, headers, i, end) == pe::sections_from(
            d,
            table,
            n,
            headers,
            i,
            end,
        ),
    decreases n - i,
{
    if i < n {
        let size = bytes::u32_le(d, table + 40 * i + 16);
        let at = bytes::u32_le(d, table + 40 * i + 20);
        assert(table + 40 * i + 40 <= d.len());
        same_pe_sections(d, e, table, n, headers, i + 1, end);
        same_pe_sections(d, e, table, n, headers, i + 1, bytes::larger(end, at + size));
    }
}

/// Whether the part of the optional header that names the certificate table is
/// all there, where there is one.
pub open spec fn directories_there(d: Seq<u8>) -> bool {
    let opt = bytes::u32_le(d, 0x3C) + 24;
    let magic = bytes::u16_le(d, opt);
    &&& magic == 0x10B ==> opt + 136 <= d.len()
    &&& magic == 0x20B ==> opt + 152 <= d.len()
}

/// A complete executable is judged the same whatever follows it, where the
/// header it has is all there: one that ends before its data directories do
/// would have them read out of whatever follows.
pub proof fn after_a_pe(d: Seq<u8>, e: Seq<u8>)
    requires
        goes_on(d, e),
        pe::verdict(d).status == Status::Valid,
        directories_there(d),
    ensures
        pe::verdict(e) == pe::verdict(d),
{
    let lfanew = bytes::u32_le(d, 0x3C);
    let coff = lfanew + 4;
    let sections = bytes::u16_le(d, coff + 2);
    let table = coff + 20 + bytes::u16_le(d, coff + 16);
    let headers = table + 40 * sections;
    assert(table + 40 <= d.len());
    assert(bytes::u16_le(e, coff + 2) == sections);
    assert(bytes::u16_le(e, coff + 16) == bytes::u16_le(d, coff + 16));
    same_pe_sections(d, e, table, sections, headers, 0, headers);
    assert(pe::signature_end(e, coff + 20) == pe::signature_end(d, coff + 20));
}

// ---------------------------------------------------------------------------
// RIFF and AIFF
// ---------------------------------------------------------------------------

/// Whether two walks stand at the same place, the second having seen no less.
spec fn no_less(a: riff::Chunks, b: riff::Chunks) -> bool {
    &&& a.at == b.at
    &&& a.count == b.count
    &&& a.past_end == b.past_end
    &&& forall|id: Seq<u8>| #[trigger] a.seen.contains(id) ==> b.seen.contains(id)
}

proof fn sees_no_less(a: Seq<Seq<u8>>, b: Seq<Seq<u8>>, x: Seq<u8>)
    requires
        forall|id: Seq<u8>| #[trigger] a.contains(id) ==> b.contains(id),
    ensures
        forall|id: Seq<u8>| #[trigger] a.push(x).contains(id) ==> b.push(x).contains(id),
        forall|id: Seq<u8>| #[trigger] a.contains(id) ==> b.push(x).contains(id),
{
    assert forall|id: Seq<u8>| #[trigger] a.push(x).contains(id) implies b.push(x).contains(
        id,
    ) by {
        let i = choose|i: int| 0 <= i < a.push(x).len() && a.push(x)[i] == id;
        if i < a.len() {
            assert(a[i] == id);
            assert(a.contains(id));
            let j = choose|j: int| 0 <= j < b.len() && b[j] == id;
            assert(b.push(x)[j] == id);
        } else {
            assert(b.push(x)[b.len() as int] == id);
        }
    }
    assert forall|id: Seq<u8>| #[trigger] a.contains(id) implies b.push(x).contains(id) by {
        assert(b.contains(id));
        let j = choose|j: int| 0 <= j < b.len() && b[j] == id;
        assert(b.push(x)[j] == id);
    }
}

proof fn same_walk(
    d: Seq<u8>,
    e: Seq<u8>,
    big: bool,
    limit: int,
    w: riff::Chunks,
    x: riff::Chunks,
)
    requires
        goes_on(d, e),
        limit <= d.len(),
        no_less(w, x),
        !riff::chunks_from(d, big, limit, w).past_end,
    ensures
        no_less(riff::chunks_from(d, big, limit, w), riff::chunks_from(e, big, limit, x)),
    decreases d.len() - w.at,
{
    if w.at >= 0 && w.at + 8 <= limit {
        assert(riff::chunk_id(e, w.at) == riff::chunk_id(d, w.at)) by {
            assert forall|i: int| w.at <= i < w.at + 4 implies e[i] == d[i] by {}
            if riff::chunk_id(d, w.at) {
                assert forall|i: int| w.at <= i < w.at + 4 implies 0x20 <= #[trigger] e[i]
                    <= 0x7E by {
                    assert(d[i] == e[i]);
                }
            }
            if riff::chunk_id(e, w.at) {
                assert forall|i: int| w.at <= i < w.at + 4 implies 0x20 <= #[trigger] d[i]
                    <= 0x7E by {
                    assert(e[i] == d[i]);
                }
            }
        }
        if riff::chunk_id(d, w.at) {
            let next = w.at + 8 + riff::padded_size(bytes::u32_in(d, w.at + 4, big));
            assert(bytes::u32_in(e, w.at + 4, big) == bytes::u32_in(d, w.at + 4, big));
            let seen = riff::seen_with(d, big, w.at, w.seen);
            let more = riff::seen_with(e, big, w.at, x.seen);
            same_part(d, e, w.at, w.at + 4);
            let id = d.subrange(w.at, w.at + 4);
            if !big && (id == riff::list_id() || id == riff::riff_id()) {
                if bytes::fits(d, w.at + 8, 4) {
                    same_part(d, e, w.at + 8, w.at + 12);
                }
                if bytes::fits(e, w.at + 8, 4) {
                    sees_no_less(w.seen, x.seen, e.subrange(w.at + 8, w.at + 12));
                }
            } else {
                sees_no_less(w.seen, x.seen, id);
            }
            same_walk(
                d,
                e,
                big,
                limit,
                riff::Chunks { at: next, seen, count: w.count + 1, ..w },
                riff::Chunks { at: next, seen: more, count: x.count + 1, ..x },
            );
        }
    }
}

proof fn nothing_missing(
    needed: Seq<riff::Needed>,
    a: Seq<Seq<u8>>,
    b: Seq<Seq<u8>>,
    i: int,
)
    requires
        0 <= i <= needed.len(),
        forall|id: Seq<u8>| #[trigger] a.contains(id) ==> b.contains(id),
        riff::missing_from(needed, a, i).len() == 0,
    ensures
        riff::missing_from(needed, b, i) == riff::missing_from(needed, a, i),
    decreases i,
{
    if i > 0 {
        assert(a.contains(needed[i - 1].id));
        nothing_missing(needed, a, b, i - 1);
    }
}

proof fn same_form(
    d: Seq<u8>,
    e: Seq<u8>,
    big: bool,
    form: riff::Form,
    total: int,
    none: Seq<char>,
    cut: Seq<char>,
)
    requires
        goes_on(d, e),
        riff::form_concluded(d, big, form, total, none, cut).status == Status::Valid,
    ensures
        riff::form_concluded(e, big, form, total, none, cut) == riff::form_concluded(
            d,
            big,
            form,
            total,
            none,
            cut,
        ),
{
    let w = riff::Chunks { at: 12, seen: Seq::empty(), count: 0, past_end: false };
    same_walk(d, e, big, total, w, w);
    nothing_missing(
        form.needed,
        riff::chunks_of(d, big, total).seen,
        riff::chunks_of(e, big, total).seen,
        form.needed.len() as int,
    );
}

/// A complete RIFF container of whatever form is judged the same whatever
/// follows it.
pub proof fn after_a_riff(d: Seq<u8>, e: Seq<u8>, form: riff::Form)
    requires
        goes_on(d, e),
        riff::riff_verdict(d, form).status == Status::Valid,
    ensures
        riff::riff_verdict(e, form) == riff::riff_verdict(d, form),
{
    same_head(d, e, riff::riff_id());
    same_part(d, e, 8, 12);
    same_form(
        d,
        e,
        false,
        form,
        bytes::u32_le(d, 4) + 8,
        "no chunks follow the RIFF header"@,
        " are available; truncated, so this length runs to the last complete chunk"@,
    );
}

/// A complete AIFF file is judged the same whatever follows it.
pub proof fn after_an_aiff(d: Seq<u8>, e: Seq<u8>)
    requires
        goes_on(d, e),
        riff::aiff_verdict(d).status == Status::Valid,
    ensures
        riff::aiff_verdict(e) == riff::aiff_verdict(d),
{
    same_head(d, e, riff::form_id());
    same_part(d, e, 8, 12);
    same_form(
        d,
        e,
        true,
        riff::aiff_form(d.subrange(8, 12) == riff::aiff_form(true).id),
        bytes::u32_be(d, 4) + 8,
        "no chunks follow the FORM header"@,
        " are available; truncated"@,
    );
}

// ---------------------------------------------------------------------------
// SQLite
// ---------------------------------------------------------------------------

/// A complete database is judged the same whatever follows it.
pub proof fn after_a_database(d: Seq<u8>, e: Seq<u8>)
    requires
        goes_on(d, e),
        sqlite::verdict(d).status == Status::Valid,
    ensures
        sqlite::verdict(e) == sqlite::verdict(d),
{
    same_head(d, e, sqlite::magic());
    assert forall|i: int| 72 <= i < 92 implies e[i] == d[i] by {}
}

// ---------------------------------------------------------------------------
// ELF
// ---------------------------------------------------------------------------

proof fn same_elf_word(d: Seq<u8>, e: Seq<u8>, at: int, wide: bool, big: bool)
    requires
        goes_on(d, e),
        0 <= at,
        at + (if wide {
            8int
        } else {
            4
        }) <= d.len(),
    ensures
        structured::elf_word(e, at, wide, big) == structured::elf_word(d, at, wide, big),
{
}

proof fn same_elf_segments(
    d: Seq<u8>,
    e: Seq<u8>,
    wide: bool,
    big: bool,
    off: int,
    size: int,
    n: int,
    i: int,
    end: int,
)
    requires
        goes_on(d, e),
        0 <= off,
        0 <= i,
        size >= (if wide {
            56int
        } else {
            32
        }),
        i < n ==> off + n * size <= d.len(),
    ensures
        structured::elf_segments(e, wide, big, off, size, n, i, end) == structured::elf_segments(
            d,
            wide,
            big,
            off,
            size,
            n,
            i,
            end,
        ),
    decreases n - i,
{
    if i < n {
        let at = off + i * size;
        assert(0 <= i * size && i * size + size <= n * size) by (nonlinear_arith)
            requires
                0 <= i < n,
                size > 0,
        ;
        let first = at + (if wide {
            8int
        } else {
            4int
        });
        let second = at + (if wide {
            32int
        } else {
            16int
        });
        same_elf_word(d, e, first, wide, big);
        same_elf_word(d, e, second, wide, big);
        let o = structured::elf_word(d, first, wide, big)->Some_0;
        let s = structured::elf_word(d, second, wide, big)->Some_0;
        same_elf_segments(
            d,
            e,
            wide,
            big,
            off,
            size,
            n,
            i + 1,
            bytes::larger(end, bytes::capped(o + s)),
        );
    }
}

proof fn same_elf_sections(
    d: Seq<u8>,
    e: Seq<u8>,
    wide: bool,
    big: bool,
    off: int,
    size: int,
    n: int,
    i: int,
    end: int,
)
    requires
        goes_on(d, e),
        0 <= off,
        0 <= i,
        0 <= size,
        i < n ==> off + (n - 1) * size + 40 <= d.len(),
    ensures
        structured::elf_sections(e, wide, big, off, size, n, i, end) == structured::elf_sections(
            d,
            wide,
            big,
            off,
            size,
            n,
            i,
            end,
        ),
    decreases n - i,
{
    if i < n {
        let at = off + i * size;
        assert(0 <= i * size <= (n - 1) * size) by (nonlinear_arith)
            requires
                0 <= i <= n - 1,
                size >= 0,
        ;
        let first = at + (if wide {
            24int
        } else {
            16int
        });
        let second = at + (if wide {
            32int
        } else {
            20int
        });
        same_elf_word(d, e, first, wide, big);
        same_elf_word(d, e, second, wide, big);
        assert(bytes::u32_in(e, at + 4, big) == bytes::u32_in(d, at + 4, big));
        let o = structured::elf_word(d, first, wide, big)->Some_0;
        let s = structured::elf_word(d, second, wide, big)->Some_0;
        same_elf_sections(d, e, wide, big, off, size, n, i + 1, end);
        same_elf_sections(
            d,
            e,
            wide,
            big,
            off,
            size,
            n,
            i + 1,
            bytes::larger(end, bytes::capped(o + s)),
        );
    }
}

/// Whether the section headers of an ELF file that are read are all there,
/// where it has any.
pub open spec fn section_headers_there(d: Seq<u8>) -> bool {
    let big = d[5] == 2;
    let wide = d[4] == 2;
    let tail = if wide {
        52int
    } else {
        40int
    };
    let off = structured::elf_word_or_zero(d, if wide {
        40
    } else {
        32
    }, wide, big);
    let size = structured::elf_half_or_zero(d, tail + 6, big);
    let n = structured::at_most(structured::elf_half_or_zero(d, tail + 8, big), 512);
    n > 0 ==> off + (n - 1) * size + 40 <= d.len()
}

proof fn segments_reach(
    d: Seq<u8>,
    wide: bool,
    big: bool,
    off: int,
    size: int,
    n: int,
    i: int,
    end: int,
)
    ensures
        structured::elf_segments(d, wide, big, off, size, n, i, end) >= end,
    decreases n - i,
{
    if i < n {
        let at = off + i * size;
        let first = at + (if wide {
            8int
        } else {
            4int
        });
        let second = at + (if wide {
            32int
        } else {
            16int
        });
        if let (Some(o), Some(s)) = (
            structured::elf_word(d, first, wide, big),
            structured::elf_word(d, second, wide, big),
        ) {
            segments_reach(
                d,
                wide,
                big,
                off,
                size,
                n,
                i + 1,
                bytes::larger(end, bytes::capped(o + s)),
            );
        }
    }
}

proof fn sections_reach(
    d: Seq<u8>,
    wide: bool,
    big: bool,
    off: int,
    size: int,
    n: int,
    i: int,
    end: int,
)
    ensures
        structured::elf_sections(d, wide, big, off, size, n, i, end) >= end,
    decreases n - i,
{
    let at = off + i * size;
    if i < n && bytes::fits(d, at + 4, 4) {
        let first = at + (if wide {
            24int
        } else {
            16int
        });
        let second = at + (if wide {
            32int
        } else {
            20int
        });
        sections_reach(d, wide, big, off, size, n, i + 1, end);
        if let (Some(o), Some(s)) = (
            structured::elf_word(d, first, wide, big),
            structured::elf_word(d, second, wide, big),
        ) {
            sections_reach(
                d,
                wide,
                big,
                off,
                size,
                n,
                i + 1,
                bytes::larger(end, bytes::capped(o + s)),
            );
        }
    }
}

/// A complete ELF file is judged the same whatever follows it, where its
/// section headers are all there: one whose last header is cut short would
/// have the rest read out of whatever follows.
pub proof fn after_an_elf(d: Seq<u8>, e: Seq<u8>)
    requires
        goes_on(d, e),
        d.len() < u64::MAX,
        structured::elf_verdict(d).status == Status::Valid,
        section_headers_there(d),
    ensures
        structured::elf_verdict(e) == structured::elf_verdict(d),
{
    same_head(d, e, structured::elf_head());
    let big = d[5] == 2;
    let wide = d[4] == 2;
    let tail = if wide {
        52int
    } else {
        40int
    };
    let header = if wide {
        64int
    } else {
        52int
    };
    let at_ph = if wide {
        32int
    } else {
        28int
    };
    let at_sh = if wide {
        40int
    } else {
        32int
    };
    let phoff = structured::elf_word_or_zero(d, at_ph, wide, big);
    let shoff = structured::elf_word_or_zero(d, at_sh, wide, big);
    let phsize = structured::elf_half_or_zero(d, tail + 2, big);
    let phnum = structured::elf_half_or_zero(d, tail + 4, big);
    let shsize = structured::elf_half_or_zero(d, tail + 6, big);
    let shnum = structured::elf_half_or_zero(d, tail + 8, big);
    let e1 = if phnum > 0 {
        bytes::larger(header, structured::elf_table_end(phoff, phnum, phsize))
    } else {
        header
    };
    let e2 = if shnum > 0 {
        bytes::larger(e1, structured::elf_table_end(shoff, shnum, shsize))
    } else {
        e1
    };
    let np = structured::at_most(phnum, 256);
    let ns = structured::at_most(shnum, 512);
    let e3 = structured::elf_segments(d, wide, big, phoff, phsize, np, 0, e2);
    segments_reach(d, wide, big, phoff, phsize, np, 0, e2);
    sections_reach(d, wide, big, shoff, shsize, ns, 0, e3);
    assert(structured::elf_end(d, wide, big) <= d.len());
    assert(header <= d.len());
    same_elf_word(d, e, at_ph, wide, big);
    same_elf_word(d, e, at_sh, wide, big);
    assert(structured::elf_half_or_zero(e, tail + 2, big) == phsize);
    assert(structured::elf_half_or_zero(e, tail + 4, big) == phnum);
    assert(structured::elf_half_or_zero(e, tail + 6, big) == shsize);
    assert(structured::elf_half_or_zero(e, tail + 8, big) == shnum);
    if phnum > 0 {
        assert(phoff + phnum * phsize <= d.len());
        assert(np * phsize <= phnum * phsize) by (nonlinear_arith)
            requires
                np <= phnum,
                phsize >= 0,
        ;
        same_elf_segments(d, e, wide, big, phoff, phsize, np, 0, e2);
    }
    same_elf_sections(d, e, wide, big, shoff, shsize, ns, 0, e3);
    assert(structured::elf_end(e, wide, big) == structured::elf_end(d, wide, big));
}

// ---------------------------------------------------------------------------
// TIFF
// ---------------------------------------------------------------------------

/// What an entry holds out of line ends before the furthest byte pointed at.
proof fn same_value(d: Seq<u8>, e: Seq<u8>, at: int, typ: int, k: int, big: bool)
    requires
        goes_on(d, e),
        0 <= at,
        0 <= k,
        at + 12 <= d.len(),
        ({
            let held = structured::type_size(typ) * bytes::u32_in(d, at + 4, big);
            held > 4 ==> bytes::u32_in(d, at + 8, big) + held <= d.len()
        }),
    ensures
        structured::tiff_value(e, at, typ, k, big) == structured::tiff_value(d, at, typ, k, big),
{
    let unit = structured::type_size(typ);
    let count = bytes::u32_in(d, at + 4, big);
    if (typ == 3 || typ == 4) && k < count {
        assert(0 <= k * unit && k * unit + unit <= unit * count) by (nonlinear_arith)
            requires
                0 <= k < count,
                unit > 0,
        ;
    }
}

proof fn same_values(
    d: Seq<u8>,
    e: Seq<u8>,
    at: int,
    typ: int,
    big: bool,
    k: int,
    n: int,
    acc: Seq<int>,
)
    requires
        goes_on(d, e),
        0 <= at,
        0 <= k,
        at + 12 <= d.len(),
        ({
            let held = structured::type_size(typ) * bytes::u32_in(d, at + 4, big);
            held > 4 ==> bytes::u32_in(d, at + 8, big) + held <= d.len()
        }),
    ensures
        structured::tiff_values(e, at, typ, big, k, n, acc) == structured::tiff_values(
            d,
            at,
            typ,
            big,
            k,
            n,
            acc,
        ),
    decreases n - k,
{
    if k < n {
        same_value(d, e, at, typ, k, big);
        same_values(
            d,
            e,
            at,
            typ,
            big,
            k + 1,
            n,
            match structured::tiff_value(d, at, typ, k, big) {
                Some(v) => acc.push(v),
                None => acc,
            },
        );
    }
}

proof fn same_tiff_entry(d: Seq<u8>, e: Seq<u8>, big: bool, at: int, s: structured::Directories)
    requires
        goes_on(d, e),
        0 <= at,
        at + 12 <= d.len(),
        structured::tiff_entry(d, big, at, s).end <= d.len(),
    ensures
        structured::tiff_entry(e, big, at, s) == structured::tiff_entry(d, big, at, s),
        structured::tiff_entry(d, big, at, s).end >= s.end,
{
    let typ = bytes::u16_in(d, at + 2, big);
    let n = structured::at_most(bytes::u32_in(d, at + 4, big), 4096);
    same_value(d, e, at, typ, 0, big);
    same_values(d, e, at, typ, big, 0, n, s.strip_offsets);
    same_values(d, e, at, typ, big, 0, n, s.strip_counts);
    let unit = structured::type_size(typ);
    let count = bytes::u32_in(d, at + 4, big);
    if unit * count > 4 {
        assert(unit * n <= unit * count && unit * 1 <= unit * count) by (nonlinear_arith)
            requires
                0 <= unit,
                n <= count,
                unit * count > 4,
        ;
    }
}

proof fn entry_ends_grow(d: Seq<u8>, big: bool, at: int, s: structured::Directories)
    ensures
        structured::tiff_entry(d, big, at, s).end >= s.end,
{
}

proof fn entries_ends_grow(
    d: Seq<u8>,
    big: bool,
    ifd: int,
    count: int,
    i: int,
    s: structured::Directories,
)
    ensures
        structured::tiff_entries(d, big, ifd, count, i, s).end >= s.end,
    decreases count - i,
{
    if i < count {
        let s1 = structured::tiff_entry(d, big, ifd + 2 + 12 * i, s);
        entry_ends_grow(d, big, ifd + 2 + 12 * i, s);
        entries_ends_grow(d, big, ifd, count, i + 1, s1);
    }
}

proof fn same_tiff_entries(
    d: Seq<u8>,
    e: Seq<u8>,
    big: bool,
    ifd: int,
    count: int,
    i: int,
    s: structured::Directories,
)
    requires
        goes_on(d, e),
        0 <= ifd,
        0 <= i,
        ifd + 2 + 12 * count <= d.len(),
        structured::tiff_entries(d, big, ifd, count, i, s).end <= d.len(),
    ensures
        structured::tiff_entries(e, big, ifd, count, i, s) == structured::tiff_entries(
            d,
            big,
            ifd,
            count,
            i,
            s,
        ),
    decreases count - i,
{
    if i < count {
        let at = ifd + 2 + 12 * i;
        let s1 = structured::tiff_entry(d, big, at, s);
        entries_ends_grow(d, big, ifd, count, i + 1, s1);
        same_tiff_entry(d, e, big, at, s);
        same_tiff_entries(d, e, big, ifd, count, i + 1, s1);
    }
}

proof fn chain_ends_grow(d: Seq<u8>, big: bool, ifd: int, round: int, s: structured::Directories)
    ensures
        match structured::tiff_chain(d, big, ifd, round, s) {
            Ok(r) => r.end >= s.end,
            Err(v) => v.status != Status::Valid,
        },
    decreases 64 - round,
{
    if round < 64 && ifd != 0 && bytes::fits(d, ifd, 2) {
        let count = bytes::u16_in(d, ifd, big);
        let ifd_end = ifd + 2 + 12 * count + 4;
        let s0 = structured::Directories {
            end: bytes::larger(s.end, ifd_end),
            own: bytes::larger(s.own, ifd_end),
            ..s
        };
        let s1 = structured::tiff_entries(d, big, ifd, count, 0, s0);
        entries_ends_grow(d, big, ifd, count, 0, s0);
        chain_ends_grow(
            d,
            big,
            bytes::u32_in(d, ifd_end - 4, big),
            round + 1,
            structured::Directories { ifds: s1.ifds + 1, ..s1 },
        );
    }
}

proof fn same_chain(
    d: Seq<u8>,
    e: Seq<u8>,
    big: bool,
    ifd: int,
    round: int,
    s: structured::Directories,
)
    requires
        goes_on(d, e),
        0 <= ifd,
        structured::tiff_chain(d, big, ifd, round, s) matches Ok(r) && r.end <= d.len(),
    ensures
        structured::tiff_chain(e, big, ifd, round, s) == structured::tiff_chain(
            d,
            big,
            ifd,
            round,
            s,
        ),
    decreases 64 - round,
{
    if round < 64 && ifd != 0 {
        let count = bytes::u16_in(d, ifd, big);
        let ifd_end = ifd + 2 + 12 * count + 4;
        let s0 = structured::Directories {
            end: bytes::larger(s.end, ifd_end),
            own: bytes::larger(s.own, ifd_end),
            ..s
        };
        let s1 = structured::tiff_entries(d, big, ifd, count, 0, s0);
        let s2 = structured::Directories { ifds: s1.ifds + 1, ..s1 };
        let next = bytes::u32_in(d, ifd_end - 4, big);
        chain_ends_grow(d, big, next, round + 1, s2);
        same_tiff_entries(d, e, big, ifd, count, 0, s0);
        same_chain(d, e, big, next, round + 1, s2);
    }
}

proof fn strips_ends_grow(offsets: Seq<int>, counts: Seq<int>, i: int, end: int)
    ensures
        structured::tiff_strips(offsets, counts, i, end) >= end,
    decreases offsets.len() - i,
{
    if 0 <= i < offsets.len() {
        strips_ends_grow(offsets, counts, i + 1, bytes::larger(end, offsets[i] + counts[i]));
    }
}

/// A complete TIFF file is judged the same whatever follows it.
pub proof fn after_a_tiff(d: Seq<u8>, e: Seq<u8>)
    requires
        goes_on(d, e),
        structured::tiff_verdict(d).status == Status::Valid,
    ensures
        structured::tiff_verdict(e) == structured::tiff_verdict(d),
{
    let big = d[0] == 0x4D;
    let ifd = bytes::u32_in(d, 4, big);
    let s0 = structured::Directories {
        end: 8,
        own: 8,
        ifds: 0,
        entries: 0,
        width: 0,
        height: 0,
        strip_offsets: Seq::empty(),
        strip_counts: Seq::empty(),
        width_past: false,
        height_past: false,
        offsets_past: false,
        counts_past: false,
    };
    chain_ends_grow(d, big, ifd, 0, s0);
    if let Ok(s) = structured::tiff_chain(d, big, ifd, 0, s0) {
        strips_ends_grow(s.strip_offsets, s.strip_counts, 0, s.end);
        same_chain(d, e, big, ifd, 0, s0);
    }
}

// ---------------------------------------------------------------------------
// JPEG
// ---------------------------------------------------------------------------

pub(crate) proof fn same_fill(d: Seq<u8>, e: Seq<u8>, at: int)
    requires
        goes_on(d, e),
        0 <= at,
        jpeg::past_fill(d, at) < d.len(),
    ensures
        jpeg::past_fill(e, at) == jpeg::past_fill(d, at),
    decreases d.len() - at,
{
    if at < d.len() && d[at] == 0xFF {
        same_fill(d, e, at + 1);
    }
}

proof fn same_entropy(
    d: Seq<u8>,
    e: Seq<u8>,
    k: int,
    expected: int,
    since: int,
    limit: Option<int>,
    other: Option<int>,
    verified: int,
    restarts: int,
)
    requires
        goes_on(d, e),
        jpeg::entropy_from(d, k, expected, since, limit, verified, restarts) is Marker,
        limit == other || (other matches Some(most) && most >= d.len() - since),
        0 <= since <= k,
    ensures
        jpeg::entropy_from(e, k, expected, since, other, verified, restarts) == jpeg::entropy_from(
            d,
            k,
            expected,
            since,
            limit,
            verified,
            restarts,
        ),
    decreases d.len() - k,
{
    if d[k] != 0xFF {
        same_entropy(d, e, k + 1, expected, since, limit, other, verified, restarts);
    } else if d[k + 1] == 0x00 {
        same_entropy(d, e, k + 2, expected, since, limit, other, verified, restarts);
    } else if d[k + 1] == 0xFF {
        same_entropy(d, e, k + 1, expected, since, limit, other, verified, restarts);
    } else if 0xD0 <= d[k + 1] <= 0xD7 {
        let got = d[k + 1] - 0xD0;
        same_entropy(
            d,
            e,
            k + 2,
            (got + 1) % 8,
            k + 2,
            limit,
            other,
            k + 2,
            restarts + 1,
        );
    }
}

/// Whether two walks stand alike, but for the blocks in an MCU where so little
/// is left that no restart interval can be too long.
spec fn alike(d: Seq<u8>, s: jpeg::Progress, t: jpeg::Progress) -> bool {
    &&& t == (jpeg::Progress { blocks_per_mcu: t.blocks_per_mcu, ..s })
    &&& s.at >= 0
    &&& s.interval >= 0
    &&& t.blocks_per_mcu >= 1
    &&& s.blocks_per_mcu == t.blocks_per_mcu || d.len() - s.at <= 512
}

pub(crate) proof fn same_samplings(d: Seq<u8>, e: Seq<u8>, at: int, components: int, c: int)
    requires
        goes_on(d, e),
        0 <= at,
        0 <= c,
        at + 9 + 3 * c <= d.len() + 2,
    ensures
        jpeg::sampled_blocks(e, at, components, c) == jpeg::sampled_blocks(d, at, components, c),
    decreases c,
{
    if c > 0 {
        same_samplings(d, e, at, components, c - 1);
    }
}

proof fn same_segment(
    d: Seq<u8>,
    e: Seq<u8>,
    marker: u8,
    at: int,
    len: int,
    s: jpeg::Progress,
    t: jpeg::Progress,
)
    requires
        goes_on(d, e),
        alike(d, s, t),
        0 <= at,
        len >= 2,
        at + len + 2 <= d.len(),
        s.at <= at,
        jpeg::segment(d, marker, at, len, s) is Ok,
    ensures
        jpeg::segment(e, marker, at, len, t) is Ok,
        alike(
            d,
            jpeg::segment(d, marker, at, len, s)->Ok_0,
            jpeg::segment(e, marker, at, len, t)->Ok_0,
        ),
{
    if marker != 0xDD && jpeg::is_frame(marker) && len >= 8 {
        let components = d[at + 7] as int;
        if at + 9 + 3 * components <= d.len() + 2 {
            same_samplings(d, e, at, components, components);
        } else {
            assert(d.len() - (at + len) <= 512);
        }
    }
}

proof fn same_markers(d: Seq<u8>, e: Seq<u8>, s: jpeg::Progress, t: jpeg::Progress)
    requires
        goes_on(d, e),
        alike(d, s, t),
        jpeg::markers_from(d, s).status == Status::Valid,
    ensures
        jpeg::markers_from(e, t) == jpeg::markers_from(d, s),
    decreases d.len() - s.at,
{
    jpeg::fill_moves_on(d, s.at);
    let j = jpeg::past_fill(d, s.at);
    let at = j + 1;
    assert(j < d.len());
    same_fill(d, e, s.at);
    let marker = d[j];
    if marker == 0xD9 {
    } else if marker == 0x01 || 0xD0 <= marker <= 0xD7 {
        same_markers(
            d,
            e,
            jpeg::Progress { at, ..s },
            jpeg::Progress { at, ..t },
        );
    } else {
        let len = bytes::u16_be(d, at);
        let s1 = jpeg::segment(d, marker, at, len, s)->Ok_0;
        assert(jpeg::segment(d, marker, at, len, s) is Ok);
        assert(s1.at == at + len);
        if marker == 0xDA {
            let s2 = jpeg::scanned(d, s1)->Ok_0;
            jpeg::entropy_moves_on(
                d,
                s1.at,
                0,
                s1.at,
                jpeg::interval_limit(s1),
                s1.verified,
                s1.restarts,
            );
            assert(jpeg::scanned(d, s1) is Ok);
            more_must_follow(d, s2);
            same_segment(d, e, marker, at, len, s, t);
            let t1 = jpeg::segment(e, marker, at, len, t)->Ok_0;
            if s1.interval > 0 {
                assert(s1.interval * t1.blocks_per_mcu * 512 >= 512) by (nonlinear_arith)
                    requires
                        s1.interval >= 1,
                        t1.blocks_per_mcu >= 1,
                ;
            }
            same_entropy(
                d,
                e,
                s1.at,
                0,
                s1.at,
                jpeg::interval_limit(s1),
                jpeg::interval_limit(t1),
                s1.verified,
                s1.restarts,
            );
            let t2 = jpeg::scanned(e, t1)->Ok_0;
            same_markers(d, e, s2, t2);
        } else {
            more_must_follow(d, s1);
            same_segment(d, e, marker, at, len, s, t);
            let t1 = jpeg::segment(e, marker, at, len, t)->Ok_0;
            same_markers(d, e, s1, t1);
        }
    }
}

/// A walk that ends well has at least an end marker before it.
proof fn more_must_follow(d: Seq<u8>, s: jpeg::Progress)
    requires
        s.at >= 0,
        jpeg::markers_from(d, s).status == Status::Valid,
    ensures
        s.at + 2 <= d.len(),
{
    jpeg::fill_moves_on(d, s.at);
}

/// A complete JPEG is judged the same whatever follows it.
pub proof fn after_a_jpeg(d: Seq<u8>, e: Seq<u8>)
    requires
        goes_on(d, e),
        jpeg::verdict(d).status == Status::Valid,
    ensures
        jpeg::verdict(e) == jpeg::verdict(d),
{
    let s = jpeg::Progress {
        at: 2,
        saw_sof: false,
        saw_sos: false,
        width: 0,
        height: 0,
        components: 0,
        restarts: 0,
        interval: 0,
        blocks_per_mcu: 1,
        segments: 0,
        verified: 2,
    };
    same_markers(d, e, s, s);
}

// ---------------------------------------------------------------------------
// ZIP
// ---------------------------------------------------------------------------

proof fn same_occurrence(d: Seq<u8>, e: Seq<u8>, mark: Seq<u8>, at: int)
    requires
        goes_on(d, e),
        at + mark.len() <= d.len(),
    ensures
        bytes::occurs_at(e, mark, at) == bytes::occurs_at(d, mark, at),
{
    if at >= 0 {
        same_part(d, e, at, at + mark.len());
    }
}

proof fn same_first(d: Seq<u8>, e: Seq<u8>, mark: Seq<u8>, from: int)
    requires
        goes_on(d, e),
        0 <= from,
        search::first_from(d, mark, from) is Some,
    ensures
        search::first_from(e, mark, from) == search::first_from(d, mark, from),
    decreases d.len() - from,
{
    same_occurrence(d, e, mark, from);
    if !bytes::occurs_at(d, mark, from) {
        same_first(d, e, mark, from + 1);
    }
}

/// Whether a stored member can be checked, or can be seen to be none, without
/// any byte past the data.
pub open spec fn member_there(d: Seq<u8>, m: zip::Entry) -> bool {
    let body = m.local + 30 + bytes::u16_le(d, m.local + 26) + bytes::u16_le(d, m.local + 28);
    m.method != 0 || m.compressed == 0 || (m.local + 30 <= d.len() && (bytes::occurs_at(
        d,
        zip::local_mark(),
        m.local,
    ) ==> body + m.compressed <= d.len()))
}

/// Whether the central directory of the end record at `pos` names only members
/// that are there.
pub open spec fn members_there(d: Seq<u8>, pos: int) -> bool {
    let declared = bytes::u16_le(d, pos + 10);
    let at = bytes::u32_le(d, pos + 16);
    if at == 0xFFFF_FFFF || declared == 0xFFFF {
        search::last_upto(d.subrange(0, pos), zip::end64_mark(), pos) matches Some(z)
            ==> listed_there(
            d,
            bytes::u64_le(d, z + 48),
            zip::capped_entries(bytes::u64_le(d, z + 32)),
        )
    } else {
        listed_there(d, at, declared)
    }
}

/// Whether the `left` entries listed at `at` are there, or can be seen not to
/// be.
pub open spec fn list_there(d: Seq<u8>, at: int, left: int) -> bool
    decreases left,
{
    let name = bytes::u16_le(d, at + 28);
    if left <= 0 {
        true
    } else if at + 46 <= d.len() && bytes::occurs_at(d, zip::central_mark(), at) && at + 46 + name
        <= d.len() {
        list_there(
            d,
            at + 46 + name + bytes::u16_le(d, at + 30) + bytes::u16_le(d, at + 32),
            left - 1,
        )
    } else {
        at + 4 <= d.len() && !bytes::occurs_at(d, zip::central_mark(), at)
    }
}

/// Whether the members listed at `at` are there.
pub open spec fn listed_there(d: Seq<u8>, at: int, declared: int) -> bool {
    let members = zip::entries_from(d, at, declared, Seq::empty());
    &&& list_there(d, at, declared)
    &&& forall|i: int| 0 <= i < members.len() ==> member_there(d, #[trigger] members[i])
}

/// Whether the end record at `pos` is none of this archive's, whatever follows:
/// it names a place inside the data where no central directory begins.
pub open spec fn no_record(d: Seq<u8>, pos: int) -> bool {
    let at = bytes::u32_le(d, pos + 16);
    &&& pos + 22 <= d.len()
    &&& at != 0xFFFF_FFFF
    &&& bytes::u16_le(d, pos + 10) != 0xFFFF
    &&& at + 4 <= d.len()
    &&& !bytes::occurs_at(d, zip::central_mark(), at)
}

/// Whether the archive's own end record is found, and its members checked,
/// without any byte past the data.
pub open spec fn decided_from(d: Seq<u8>, from: int) -> bool
    decreases d.len() - from,
    when 0 <= from
    via deciding_moves_on
{
    match search::first_from(d, zip::end_mark(), from) {
        None => true,
        Some(pos) => if zip::end_record(d, pos) is Some {
            members_there(d, pos)
        } else {
            no_record(d, pos) && decided_from(d, pos + 4)
        },
    }
}

#[via_fn]
proof fn deciding_moves_on(d: Seq<u8>, from: int) {
    search::first_is_first(d, zip::end_mark(), from);
}

proof fn same_entries(d: Seq<u8>, e: Seq<u8>, at: int, left: int, acc: Seq<zip::Entry>)
    requires
        goes_on(d, e),
        0 <= at,
        list_there(d, at, left),
    ensures
        zip::entries_from(e, at, left, acc) == zip::entries_from(d, at, left, acc),
    decreases left,
{
    if left > 0 {
        let name = bytes::u16_le(d, at + 28);
        same_occurrence(d, e, zip::central_mark(), at);
        if at + 46 <= d.len() && bytes::occurs_at(d, zip::central_mark(), at) && at + 46 + name
            <= d.len() {
            same_part(d, e, at + 46, at + 46 + name);
            assert(zip::entry_at(e, at) == zip::entry_at(d, at));
            let next = at + 46 + name + bytes::u16_le(d, at + 30) + bytes::u16_le(d, at + 32);
            same_entries(d, e, next, left - 1, acc.push(zip::entry_at(d, at)));
        }
    }
}

proof fn entries_stand(d: Seq<u8>, at: int, left: int, acc: Seq<zip::Entry>, i: int)
    requires
        0 <= at,
        0 <= i < zip::entries_from(d, at, left, acc).len(),
        forall|k: int|
            0 <= k < acc.len() ==> (#[trigger] acc[k]).local >= 0 && acc[k].compressed >= 0,
    ensures
        zip::entries_from(d, at, left, acc)[i].local >= 0,
        zip::entries_from(d, at, left, acc)[i].compressed >= 0,
    decreases left,
{
    if left > 0 && at + 46 <= d.len() && bytes::occurs_at(d, zip::central_mark(), at) && at + 46
        + bytes::u16_le(d, at + 28) <= d.len() {
        let next = at + 46 + bytes::u16_le(d, at + 28) + bytes::u16_le(d, at + 30) + bytes::u16_le(
            d,
            at + 32,
        );
        entries_stand(d, next, left - 1, acc.push(zip::entry_at(d, at)), i);
    }
}

proof fn same_stored(
    d: Seq<u8>,
    e: Seq<u8>,
    members: Seq<zip::Entry>,
    i: int,
    ok: int,
    bad: int,
)
    requires
        goes_on(d, e),
        0 <= i,
        forall|k: int| 0 <= k < members.len() ==> member_there(d, #[trigger] members[k]),
        forall|k: int|
            0 <= k < members.len() ==> (#[trigger] members[k]).local >= 0
                && members[k].compressed >= 0,
    ensures
        zip::stored_from(e, members, i, ok, bad) == zip::stored_from(d, members, i, ok, bad),
    decreases members.len() - i,
{
    if i < members.len() {
        let m = members[i];
        if m.method == 0 && m.compressed != 0 {
            same_occurrence(d, e, zip::local_mark(), m.local);
        }
        assert(zip::stored_range(e, m) == zip::stored_range(d, m));
        if let Some((body, end)) = zip::stored_range(d, m) {
            same_part(d, e, body, end);
        }
        same_stored(d, e, members, i + 1, ok, bad);
        same_stored(d, e, members, i + 1, ok + 1, bad);
        same_stored(d, e, members, i + 1, ok, bad + 1);
    }
}

proof fn same_archive(
    d: Seq<u8>,
    e: Seq<u8>,
    length: int,
    at: int,
    declared: int,
    zip64: bool,
)
    requires
        goes_on(d, e),
        0 <= at,
        listed_there(d, at, declared),
    ensures
        zip::classified(
            e,
            length,
            declared,
            zip::entries_from(e, at, declared, Seq::empty()),
            zip64,
        ) == zip::classified(
            d,
            length,
            declared,
            zip::entries_from(d, at, declared, Seq::empty()),
            zip64,
        ),
{
    let members = zip::entries_from(d, at, declared, Seq::empty());
    same_entries(d, e, at, declared, Seq::empty());
    assert forall|k: int| 0 <= k < members.len() implies (#[trigger] members[k]).local >= 0
        && members[k].compressed >= 0 by {
        entries_stand(d, at, declared, Seq::empty(), k);
    }
    same_stored(d, e, members, 0, 0, 0);
}

proof fn same_end_record(d: Seq<u8>, e: Seq<u8>, pos: int)
    requires
        goes_on(d, e),
        0 <= pos,
        members_there(d, pos),
        zip::end_record(d, pos) matches Some(v) && !v.ran_out,
    ensures
        zip::end_record(e, pos) == zip::end_record(d, pos),
{
    let declared = bytes::u16_le(d, pos + 10);
    let at = bytes::u32_le(d, pos + 16);
    let end = pos + 22 + bytes::u16_le(d, pos + 20);
    if at == 0xFFFF_FFFF || declared == 0xFFFF {
        same_part(d, e, 0, pos);
        let own = d.subrange(0, pos);
        search::last_is_last(own, zip::end64_mark(), pos);
        if let Some(z) = search::last_upto(own, zip::end64_mark(), pos) {
            let many = zip::capped_entries(bytes::u64_le(d, z + 32));
            let first = bytes::u64_le(d, z + 48);
            same_occurrence(d, e, zip::central_mark(), first);
            same_archive(d, e, end, first, many, true);
        }
    } else {
        same_occurrence(d, e, zip::central_mark(), at);
        same_archive(d, e, end, at, declared, false);
    }
}

proof fn same_ends(d: Seq<u8>, e: Seq<u8>, from: int)
    requires
        goes_on(d, e),
        0 <= from,
        decided_from(d, from),
        zip::ends_from(d, from) matches Some(v) && !v.ran_out,
    ensures
        zip::ends_from(e, from) == zip::ends_from(d, from),
    decreases d.len() - from,
{
    search::first_is_first(d, zip::end_mark(), from);
    same_first(d, e, zip::end_mark(), from);
    let pos = search::first_from(d, zip::end_mark(), from)->Some_0;
    if zip::end_record(d, pos) is Some {
        same_end_record(d, e, pos);
    } else {
        same_occurrence(d, e, zip::central_mark(), bytes::u32_le(d, pos + 16));
        assert(zip::end_record(e, pos) is None);
        same_ends(d, e, pos + 4);
    }
}

/// An archive that is judged by its own directory, and not for the end of the
/// data, is judged the same whatever follows it, where its end record, its
/// directory and its members are found inside it: one that points past the data
/// would be looked for in whatever follows.
/// Data that ends inside the header, and begins wrongly, stays wrong.
pub proof fn after_a_zip(d: Seq<u8>, e: Seq<u8>)
    requires
        goes_on(d, e),
        !zip::verdict(d).ran_out,
        bytes::begins(d, zip::local_mark()) ==> zip::ends_from(d, 0) is Some,
        decided_from(d, 0),
    ensures
        d.len() >= 4 ==> zip::verdict(e) == zip::verdict(d),
        zip::verdict(d).contradicts() ==> zip::verdict(e).contradicts(),
{
    if d.len() < 4 {
        stays_off(d, e, zip::local_mark(), 0);
    } else {
        same_head(d, e, zip::local_mark());
        if bytes::begins(d, zip::local_mark()) {
            same_ends(d, e, 0);
        }
    }
}

// ---------------------------------------------------------------------------
// MP4
// ---------------------------------------------------------------------------

/// Whether no box begins at `at`: there is room for a header, and what stands
/// there is none.
pub open spec fn no_box(e: Seq<u8>, at: int) -> bool {
    &&& at + 8 <= e.len()
    &&& !mp4::printable(e, at + 4) || (mp4::box_size(e, at, e.len() as int) matches Some(b) && b.0
        < b.1)
}

/// Whether every box of the walk from `s` on states its own size.
pub open spec fn sizes_stated(d: Seq<u8>, s: mp4::Progress) -> bool
    decreases d.len() - s.at,
{
    if s.at < 0 || s.at + 8 > d.len() || !mp4::printable(d, s.at + 4) {
        true
    } else {
        match mp4::box_size(d, s.at, d.len() as int) {
            None => true,
            Some((size, header)) => if size < header || s.at + size > d.len() {
                true
            } else {
                bytes::u32_be(d, s.at) != 0 && sizes_stated(
                    d,
                    mp4::Progress { at: s.at + size, ..mp4::counted(d, s, size, header) },
                )
            },
        }
    }
}

pub(crate) proof fn same_print(d: Seq<u8>, e: Seq<u8>, at: int)
    requires
        goes_on(d, e),
        0 <= at,
        at + 4 <= d.len(),
    ensures
        mp4::printable(e, at) == mp4::printable(d, at),
{
    if mp4::printable(d, at) {
        assert forall|i: int| at <= i < at + 4 implies 0x20 <= #[trigger] e[i] <= 0x7E by {
            assert(d[i] == e[i]);
        }
    }
    if mp4::printable(e, at) {
        assert forall|i: int| at <= i < at + 4 implies 0x20 <= #[trigger] d[i] <= 0x7E by {
            assert(e[i] == d[i]);
        }
    }
}

pub(crate) proof fn same_boxes(d: Seq<u8>, e: Seq<u8>, s: mp4::Progress)
    requires
        goes_on(d, e),
        d.len() < e.len(),
        e.len() <= u64::MAX,
        0 <= s.at,
        s.cut is None,
        mp4::boxes_from(d, s).cut is None,
        sizes_stated(d, s),
        no_box(e, mp4::boxes_from(d, s).at),
    ensures
        mp4::boxes_from(e, s) == mp4::boxes_from(d, s),
    decreases d.len() - s.at,
{
    if s.at + 8 <= d.len() {
        same_print(d, e, s.at + 4);
        if mp4::printable(d, s.at + 4) {
            if let Some((size, header)) = mp4::box_size(d, s.at, d.len() as int) {
                if size >= header && s.at + size <= d.len() {
                    assert(mp4::box_size(e, s.at, e.len() as int) == mp4::box_size(
                        d,
                        s.at,
                        d.len() as int,
                    ));
                    assert(mp4::counted(e, s, size, header) == mp4::counted(d, s, size, header));
                    same_boxes(
                        d,
                        e,
                        mp4::Progress { at: s.at + size, ..mp4::counted(d, s, size, header) },
                    );
                }
            }
        }
    }
}

/// What follows a complete MP4 file does not lengthen it, where the file's
/// boxes all state their size and what follows does not begin as a box does: a
/// last box without a size runs on to the end, and what begins as a box is one
/// more.
pub proof fn after_an_mp4(d: Seq<u8>, e: Seq<u8>)
    requires
        goes_on(d, e),
        d.len() < e.len(),
        e.len() <= u64::MAX,
        mp4::verdict(d).status == Status::Valid,
        sizes_stated(d, mp4::start()),
        no_box(e, mp4::verdict(d).length),
    ensures
        mp4::verdict(e).status == Status::Valid ==> mp4::verdict(e).length == mp4::verdict(
            d,
        ).length,
{
    same_print(d, e, 8);
    same_boxes(d, e, mp4::start());
}

// ---------------------------------------------------------------------------
// PDF
// ---------------------------------------------------------------------------

proof fn same_digits(d: Seq<u8>, e: Seq<u8>, i: int)
    requires
        goes_on(d, e),
        0 <= i,
        pdf::past_digits(d, i) < d.len(),
    ensures
        pdf::past_digits(e, i) == pdf::past_digits(d, i),
        pdf::past_digits(d, i) >= i,
    decreases d.len() - i,
{
    if i < d.len() && pdf::is_digit(d[i]) {
        same_digits(d, e, i + 1);
    }
}

proof fn same_space(d: Seq<u8>, e: Seq<u8>, i: int, end: int)
    requires
        goes_on(d, e),
        0 <= i,
        end <= d.len(),
    ensures
        pdf::past_space(e, i, end) == pdf::past_space(d, i, end),
        pdf::past_space(d, i, end) >= i,
    decreases end - i,
{
    if i < end {
        same_space(d, e, i + 1, end);
    }
}

proof fn same_number(d: Seq<u8>, e: Seq<u8>, i: int, end: int, v: int)
    requires
        goes_on(d, e),
        0 <= i,
        0 <= v,
        end <= d.len(),
    ensures
        pdf::number_from(e, i, end, v) == pdf::number_from(d, i, end, v),
        pdf::number_from(d, i, end, v) matches Some(n) ==> n >= 0,
    decreases end - i,
{
    if i < end && pdf::is_digit(d[i]) {
        same_number(d, e, i + 1, end, v * 10 + (d[i] - 0x30));
    }
}

proof fn same_line_ends(d: Seq<u8>, e: Seq<u8>, at: int)
    requires
        goes_on(d, e),
        0 <= at <= d.len(),
        pdf::past_line_ends(d, at) < d.len() || e.len() == d.len() || !(e[d.len() as int] == 0x0D
            || e[d.len() as int] == 0x0A),
    ensures
        pdf::past_line_ends(e, at) == pdf::past_line_ends(d, at),
    decreases d.len() - at,
{
    if at < d.len() && (d[at] == 0x0D || d[at] == 0x0A) {
        same_line_ends(d, e, at + 1);
    }
}

/// Whether the data settles if a cross-reference stands at `at`.
pub open spec fn index_settled(d: Seq<u8>, at: int) -> bool {
    let number = pdf::past_digits(d, at);
    let generation = pdf::past_digits(d, number + 1);
    ||| bytes::occurs_at(d, pdf::xref_mark(), at)
    ||| at + 4 <= d.len() && number < d.len() && (number == at || d[number] != 0x20 || (generation
        < d.len() && (generation == number + 1 || generation + 4 <= d.len())))
}

/// Whether the data settles what the trailer that ends at `last` points to.
pub open spec fn trailer_settled(d: Seq<u8>, last: int) -> bool {
    let from = if last >= 512 {
        last - 512
    } else {
        0
    };
    let trailer = d.subrange(from, last);
    search::last_upto(trailer, pdf::startxref_mark(), trailer.len() as int) matches Some(p)
        ==> pdf::offset_in(d, from + p + 9, last) matches Some(offset) ==> index_settled(d, offset)
}

/// Whether the last trailer of the file points into the data.
pub open spec fn index_there(d: Seq<u8>) -> bool {
    let own = d.subrange(0, pdf::bound(d));
    search::last_upto(own, pdf::eof_mark(), own.len() as int) matches Some(last)
        ==> trailer_settled(d, last)
}

proof fn same_index(d: Seq<u8>, e: Seq<u8>, at: int)
    requires
        goes_on(d, e),
        0 <= at,
        index_settled(d, at),
    ensures
        bytes::occurs_at(e, pdf::xref_mark(), at) == bytes::occurs_at(d, pdf::xref_mark(), at),
        !bytes::occurs_at(d, pdf::xref_mark(), at) ==> pdf::object_header(e, at)
            == pdf::object_header(d, at),
{
    same_occurrence(d, e, pdf::xref_mark(), at);
    if !bytes::occurs_at(d, pdf::xref_mark(), at) {
        same_digits(d, e, at);
        let number = pdf::past_digits(d, at);
        if number > at && d[number] == 0x20 {
            same_digits(d, e, number + 1);
            let generation = pdf::past_digits(d, number + 1);
            if generation > number + 1 {
                same_occurrence(d, e, pdf::obj_mark(), generation);
            }
        }
    }
}

proof fn same_trailer(d: Seq<u8>, e: Seq<u8>, last: int, count: int)
    requires
        goes_on(d, e),
        8 <= d.len(),
        0 <= last,
        last + 5 <= d.len(),
        trailer_settled(d, last),
        pdf::past_line_ends(d, last + 5) < d.len() || e.len() == d.len() || !(e[d.len() as int]
            == 0x0D || e[d.len() as int] == 0x0A),
    ensures
        pdf::with_trailer(e, last, count) == pdf::with_trailer(d, last, count),
{
    let from = if last >= 512 {
        last - 512
    } else {
        0
    };
    same_line_ends(d, e, last + 5);
    same_part(d, e, 5, 8);
    same_part(d, e, from, last);
    let trailer = d.subrange(from, last);
    search::last_is_last(trailer, pdf::startxref_mark(), trailer.len() as int);
    if let Some(p) = search::last_upto(trailer, pdf::startxref_mark(), trailer.len() as int) {
        let i = from + p + 9;
        same_space(d, e, i, last);
        let at = pdf::past_space(d, i, last);
        same_number(d, e, at, last, 0);
        if let Some(offset) = pdf::offset_in(d, i, last) {
            same_index(d, e, offset);
        }
    }
}

/// Where a mark stands in two texts alike, it stands last in the same place.
proof fn same_last(a: Seq<u8>, b: Seq<u8>, mark: Seq<u8>)
    requires
        mark.len() > 0,
        forall|i: int| #[trigger]
            bytes::occurs_at(a, mark, i) <==> #[trigger] bytes::occurs_at(b, mark, i),
    ensures
        search::last_upto(a, mark, a.len() as int) == search::last_upto(b, mark, b.len() as int),
{
    search::last_is_last(a, mark, a.len() as int);
    search::last_is_last(b, mark, b.len() as int);
    match search::last_upto(a, mark, a.len() as int) {
        Some(i) => {
            assert(bytes::occurs_at(b, mark, i));
            let j = search::last_upto(b, mark, b.len() as int)->Some_0;
            assert(search::last_upto(b, mark, b.len() as int) is Some);
            assert(bytes::occurs_at(a, mark, j));
        },
        None => {
            if let Some(j) = search::last_upto(b, mark, b.len() as int) {
                assert(bytes::occurs_at(a, mark, j));
            }
        },
    }
}

/// Where a mark stands in two texts alike, it stands first in the same place.
proof fn alike_first(a: Seq<u8>, b: Seq<u8>, mark: Seq<u8>, from: int)
    requires
        0 <= from,
        forall|i: int| #[trigger]
            bytes::occurs_at(a, mark, i) <==> #[trigger] bytes::occurs_at(b, mark, i),
    ensures
        search::first_from(a, mark, from) == search::first_from(b, mark, from),
{
    search::first_is_first(a, mark, from);
    search::first_is_first(b, mark, from);
    match search::first_from(a, mark, from) {
        Some(i) => {
            assert(bytes::occurs_at(b, mark, i));
            let j = search::first_from(b, mark, from)->Some_0;
            assert(search::first_from(b, mark, from) is Some);
            assert(bytes::occurs_at(a, mark, j));
        },
        None => {
            if let Some(j) = search::first_from(b, mark, from) {
                assert(bytes::occurs_at(a, mark, j));
            }
        },
    }
}

proof fn same_count(a: Seq<u8>, b: Seq<u8>, mark: Seq<u8>, from: int)
    requires
        0 <= from,
        mark.len() > 0,
        forall|i: int| #[trigger]
            bytes::occurs_at(a, mark, i) <==> #[trigger] bytes::occurs_at(b, mark, i),
    ensures
        search::count_from(a, mark, from) == search::count_from(b, mark, from),
    decreases a.len() - from,
{
    alike_first(a, b, mark, from);
    search::first_is_first(a, mark, from);
    if let Some(i) = search::first_from(a, mark, from) {
        same_count(a, b, mark, i + mark.len());
    }
}

/// A trailer's end is no part of the header of the next file.
proof fn marks_do_not_overlap(e: Seq<u8>, i: int, p: int)
    requires
        bytes::occurs_at(e, pdf::eof_mark(), i),
        bytes::occurs_at(e, pdf::header_mark(), p),
    ensures
        !(i < p < i + 5),
{
    if i < p < i + 5 {
        let eof = e.subrange(i, i + 5);
        let head = e.subrange(p, p + 5);
        assert(eof == pdf::eof_mark() && head == pdf::header_mark());
        assert(eof[p - i] == e[p]);
        assert(head[0] == e[p]);
        if p == i + 1 {
            assert(eof[2] == e[i + 2]);
            assert(head[1] == e[p + 1]);
        }
    }
}

/// Whether what follows a file neither ends its last line nor holds one more of
/// its trailers.
pub open spec fn no_update(d: Seq<u8>, e: Seq<u8>) -> bool {
    &&& pdf::verdict(d).length < d.len() || e.len() == d.len() || !(e[d.len() as int] == 0x0D
        || e[d.len() as int] == 0x0A)
    &&& forall|i: int| #[trigger]
        bytes::occurs_at(e.subrange(0, pdf::bound(e)), pdf::eof_mark(), i) ==> i + 5 <= pdf::bound(
            d,
        )
}

proof fn same_body(d: Seq<u8>, e: Seq<u8>)
    requires
        goes_on(d, e),
        8 <= d.len(),
        !pdf::verdict(d).ran_out,
        bytes::begins(d, pdf::header_mark()),
        index_there(d),
        no_update(d, e),
    ensures
        pdf::verdict(e) == pdf::verdict(d),
{
    same_head(d, e, pdf::header_mark());
    search::first_is_first(d, pdf::header_mark(), 1);
    search::first_is_first(e, pdf::header_mark(), 1);
    if search::first_from(d, pdf::header_mark(), 1) is Some {
        same_first(d, e, pdf::header_mark(), 1);
    } else if let Some(p) = search::first_from(e, pdf::header_mark(), 1) {
        if p + 5 <= d.len() {
            same_occurrence(d, e, pdf::header_mark(), p);
            assert(bytes::occurs_at(d, pdf::header_mark(), p));
        }
    }
    let own = d.subrange(0, pdf::bound(d));
    let other = e.subrange(0, pdf::bound(e));
    if pdf::bound(e) == pdf::bound(d) {
        same_part(d, e, 0, pdf::bound(d));
    }
    same_part(d, e, 5, 8);
    let mark = pdf::eof_mark();
    assert forall|i: int| #[trigger]
        bytes::occurs_at(own, mark, i) <==> #[trigger] bytes::occurs_at(other, mark, i) by {
        if bytes::occurs_at(own, mark, i) {
            assert(own.subrange(i, i + 5) =~= d.subrange(i, i + 5));
            assert(bytes::occurs_at(d, mark, i));
            same_occurrence(d, e, mark, i);
            if i + 5 > pdf::bound(e) {
                marks_do_not_overlap(e, i, pdf::bound(e));
            }
            assert(other.subrange(i, i + 5) =~= e.subrange(i, i + 5));
        }
        if bytes::occurs_at(other, mark, i) {
            assert(other.subrange(i, i + 5) =~= e.subrange(i, i + 5));
            assert(own.subrange(i, i + 5) =~= e.subrange(i, i + 5));
        }
    }
    same_last(own, other, mark);
    same_count(own, other, mark, 0);
    search::last_is_last(own, mark, own.len() as int);
    if let Some(last) = search::last_upto(own, mark, own.len() as int) {
        if pdf::is_digit(d[5]) && d[6] == 0x2E && pdf::is_digit(d[7]) {
            same_trailer(d, e, last, search::count_from(own, mark, 0));
        }
    }
}

/// A PDF that is not judged for the end of the data is judged the same whatever
/// follows it, where its trailer points into the data, unless what follows ends
/// as one more update of the same file does, or begins with the line ending of
/// its last line.
/// Data that ends inside the header, and begins wrongly, stays wrong.
pub proof fn after_a_pdf(d: Seq<u8>, e: Seq<u8>)
    requires
        goes_on(d, e),
        !pdf::verdict(d).ran_out,
        bytes::begins(d, pdf::header_mark()) ==> index_there(d) && no_update(d, e),
    ensures
        d.len() >= 8 ==> pdf::verdict(e) == pdf::verdict(d),
        pdf::verdict(d).contradicts() ==> pdf::verdict(e).contradicts(),
{
    if d.len() < 8 {
        if !bytes::agrees(d, pdf::header_mark(), 0) {
            stays_off(d, e, pdf::header_mark(), 0);
        }
    } else {
        same_head(d, e, pdf::header_mark());
        if bytes::begins(d, pdf::header_mark()) {
            same_body(d, e);
        }
    }
}

} // verus!
