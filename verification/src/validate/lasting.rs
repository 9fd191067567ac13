//! Where a validator finds something that cannot belong, more bytes do not
//! change that. Appending the right cluster to a file that was cut short leaves
//! it cut short, further along; what contradicts it goes on doing so.

use vstd::prelude::*;
use crate::bytes;
use super::{archive, jpeg, mp4, pe, riff, sqlite, structured, trailing};

verus! {

/// A RAR archive that is judged for anything but the end of the data is judged
/// the same whatever follows it.
pub proof fn after_a_rar(d: Seq<u8>, e: Seq<u8>)
    requires
        trailing::goes_on(d, e),
        !archive::rar_verdict(d).ran_out,
    ensures
        archive::rar_verdict(e) == archive::rar_verdict(d),
{
    let five = archive::rar5_head();
    let four = archive::rar4_head();
    heads_settle(d, e, five);
    heads_settle(d, e, four);
}

proof fn heads_settle(d: Seq<u8>, e: Seq<u8>, head: Seq<u8>)
    requires
        trailing::goes_on(d, e),
    ensures
        bytes::begins(d, head) ==> bytes::begins(e, head),
        bytes::begins(e, head) ==> bytes::begins(d, head) || archive::cut_short(d, head),
        archive::cut_short(e, head) ==> archive::cut_short(d, head),
{
    if head.len() <= d.len() {
        assert(e.subrange(0, head.len() as int) =~= d.subrange(0, head.len() as int));
    } else {
        if bytes::begins(e, head) {
            assert forall|i: int| 0 <= i < d.len() implies d[i] == head[i] by {
                assert(e.subrange(0, head.len() as int)[i] == e[i]);
            }
            assert(d =~= head.subrange(0, d.len() as int));
        }
        if archive::cut_short(e, head) {
            assert forall|i: int| 0 <= i < d.len() implies d[i] == head[i] by {
                assert(e[i] == head.subrange(0, e.len() as int)[i]);
            }
            assert(d =~= head.subrange(0, d.len() as int));
        }
    }
}

// ---------------------------------------------------------------------------
// RIFF and AIFF
// ---------------------------------------------------------------------------

proof fn same_ids(d: Seq<u8>, e: Seq<u8>, at: int)
    requires
        trailing::goes_on(d, e),
        0 <= at,
        at + 4 <= d.len(),
    ensures
        riff::chunk_id(e, at) == riff::chunk_id(d, at),
{
    assert forall|i: int| at <= i < at + 4 implies e[i] == d[i] by {}
    if riff::chunk_id(d, at) {
        assert forall|i: int| at <= i < at + 4 implies 0x20 <= #[trigger] e[i] <= 0x7E by {
            assert(d[i] == e[i]);
        }
    }
    if riff::chunk_id(e, at) {
        assert forall|i: int| at <= i < at + 4 implies 0x20 <= #[trigger] d[i] <= 0x7E by {
            assert(e[i] == d[i]);
        }
    }
}

/// How far the data of a container reaches.
spec fn reach(d: Seq<u8>, total: int) -> int {
    if total <= d.len() {
        total
    } else {
        d.len() as int
    }
}

/// A walk that did not stop at the end of the data goes the same way on more.
proof fn same_walk(
    d: Seq<u8>,
    e: Seq<u8>,
    big: bool,
    total: int,
    w: riff::Chunks,
    x: riff::Chunks,
)
    requires
        trailing::goes_on(d, e),
        x.at == w.at,
        x.count == w.count,
        x.past_end == w.past_end,
        !riff::ended(d, riff::chunks_from(d, big, reach(d, total), w), total),
    ensures
        ({
            let a = riff::chunks_from(d, big, reach(d, total), w);
            let b = riff::chunks_from(e, big, reach(e, total), x);
            b.at == a.at && b.count == a.count && b.past_end == a.past_end
        }),
    decreases d.len() - w.at,
{
    if w.at >= 0 && w.at + 8 <= reach(d, total) {
        same_ids(d, e, w.at);
        if riff::chunk_id(d, w.at) {
            let next = w.at + 8 + riff::padded_size(bytes::u32_in(d, w.at + 4, big));
            assert(bytes::u32_in(e, w.at + 4, big) == bytes::u32_in(d, w.at + 4, big));
            let seen = riff::seen_with(d, big, w.at, w.seen);
            let more = riff::seen_with(e, big, w.at, x.seen);
            same_walk(
                d,
                e,
                big,
                total,
                riff::Chunks { at: next, seen, count: w.count + 1, ..w },
                riff::Chunks { at: next, seen: more, count: x.count + 1, ..x },
            );
        }
    }
}

proof fn form_lasts(
    d: Seq<u8>,
    e: Seq<u8>,
    big: bool,
    form: riff::Form,
    total: int,
    none: Seq<char>,
    cut: Seq<char>,
)
    requires
        trailing::goes_on(d, e),
        riff::form_concluded(d, big, form, total, none, cut).contradicts(),
        riff::chunks_of(e, big, total).seen == riff::chunks_of(d, big, total).seen,
    ensures
        riff::form_concluded(e, big, form, total, none, cut).contradicts(),
{
    let w = riff::Chunks { at: 12, seen: Seq::empty(), count: 0, past_end: false };
    same_walk(d, e, big, total, w, w);
}

/// A RIFF container that holds something that cannot belong still does,
/// whatever follows it; unless an empty list stands at the very end of the data
/// and takes its type from what follows.
pub proof fn after_a_wrong_riff(d: Seq<u8>, e: Seq<u8>, form: riff::Form)
    requires
        trailing::goes_on(d, e),
        riff::riff_verdict(d, form).contradicts(),
        d.len() >= 12 ==> riff::chunks_of(e, false, bytes::u32_le(d, 4) + 8).seen
            == riff::chunks_of(d, false, bytes::u32_le(d, 4) + 8).seen,
    ensures
        riff::riff_verdict(e, form).contradicts(),
{
    if d.len() < 12 {
        if bytes::agrees(d, riff::riff_id(), 0) {
            trailing::stays_off(d, e, form.id, 8);
        } else {
            trailing::stays_off(d, e, riff::riff_id(), 0);
        }
    } else {
        assert(e.subrange(0, 4) =~= d.subrange(0, 4));
        assert(e.subrange(8, 12) =~= d.subrange(8, 12));
    }
    let total = bytes::u32_le(d, 4) + 8;
    let none = "no chunks follow the RIFF header"@;
    let cut = " are available; truncated, so this length runs to the last complete chunk"@;
    if riff::form_concluded(d, false, form, total, none, cut).contradicts() {
        form_lasts(d, e, false, form, total, none, cut);
    }
}

proof fn same_sights(
    d: Seq<u8>,
    e: Seq<u8>,
    total: int,
    w: riff::Chunks,
)
    requires
        trailing::goes_on(d, e),
        !riff::ended(d, riff::chunks_from(d, true, reach(d, total), w), total),
    ensures
        riff::chunks_from(e, true, reach(e, total), w) == riff::chunks_from(
            d,
            true,
            reach(d, total),
            w,
        ),
    decreases d.len() - w.at,
{
    if w.at >= 0 && w.at + 8 <= reach(d, total) {
        same_ids(d, e, w.at);
        if riff::chunk_id(d, w.at) {
            let next = w.at + 8 + riff::padded_size(bytes::u32_in(d, w.at + 4, true));
            assert(bytes::u32_in(e, w.at + 4, true) == bytes::u32_in(d, w.at + 4, true));
            assert(e.subrange(w.at, w.at + 4) =~= d.subrange(w.at, w.at + 4));
            let seen = riff::seen_with(d, true, w.at, w.seen);
            same_sights(
                d,
                e,
                total,
                riff::Chunks { at: next, seen, count: w.count + 1, ..w },
            );
        }
    }
}

/// An AIFF file that holds something that cannot belong still does, whatever
/// follows it.
pub proof fn after_a_wrong_aiff(d: Seq<u8>, e: Seq<u8>)
    requires
        trailing::goes_on(d, e),
        riff::aiff_verdict(d).contradicts(),
    ensures
        riff::aiff_verdict(e).contradicts(),
{
    if d.len() < 12 {
        if bytes::agrees(d, riff::form_id(), 0) {
            trailing::stays_off(d, e, riff::aiff_form(false).id, 8);
            trailing::stays_off(d, e, riff::aiff_form(true).id, 8);
        } else {
            trailing::stays_off(d, e, riff::form_id(), 0);
        }
    } else {
        assert(e.subrange(0, 4) =~= d.subrange(0, 4));
        assert(e.subrange(8, 12) =~= d.subrange(8, 12));
    }
    let total = bytes::u32_be(d, 4) + 8;
    let form = riff::aiff_form(d.subrange(8, 12) == riff::aiff_form(true).id);
    let none = "no chunks follow the FORM header"@;
    let cut = " are available; truncated"@;
    if riff::form_concluded(d, true, form, total, none, cut).contradicts() {
        let w = riff::Chunks { at: 12, seen: Seq::empty(), count: 0, past_end: false };
        same_sights(d, e, total, w);
        form_lasts(d, e, true, form, total, none, cut);
    }
}

// ---------------------------------------------------------------------------
// SQLite
// ---------------------------------------------------------------------------

/// A database that holds something that cannot belong still does, whatever
/// follows it.
pub proof fn after_a_wrong_database(d: Seq<u8>, e: Seq<u8>)
    requires
        trailing::goes_on(d, e),
        sqlite::verdict(d).contradicts(),
    ensures
        sqlite::verdict(e).contradicts(),
{
    if d.len() < 100 {
        trailing::stays_off(d, e, sqlite::magic(), 0);
    } else {
        assert(e.subrange(0, 16) =~= d.subrange(0, 16));
        assert forall|i: int| 72 <= i < 92 implies e[i] == d[i] by {}
        let page = sqlite::page_size(d);
        if sqlite::defined_page(page) {
            whole_pages_grow(d.len() as int, e.len() as int, page);
        }
    }
}

proof fn whole_pages_grow(a: int, b: int, page: int)
    requires
        0 <= a <= b,
        0 < page,
    ensures
        sqlite::whole_pages(a, page) <= sqlite::whole_pages(b, page),
        0 <= sqlite::whole_pages(a, page),
{
    vstd::arithmetic::div_mod::lemma_div_is_ordered(a, b, page);
    vstd::arithmetic::div_mod::lemma_div_pos_is_pos(a, page);
    assert(a / page * page <= b / page * page && 0 <= a / page * page) by (nonlinear_arith)
        requires
            0 <= a / page <= b / page,
            0 < page,
    ;
}

// ---------------------------------------------------------------------------
// Executables
// ---------------------------------------------------------------------------

/// A Windows executable that holds something that cannot belong is judged the
/// same whatever follows it.
/// Data that ends inside the header, and begins wrongly, stays wrong.
pub proof fn after_a_wrong_pe(d: Seq<u8>, e: Seq<u8>)
    requires
        trailing::goes_on(d, e),
        pe::verdict(d).contradicts(),
    ensures
        d.len() >= 0x40 ==> pe::verdict(e) == pe::verdict(d),
        pe::verdict(e).contradicts(),
{
    let lfanew = bytes::u32_le(d, 0x3C);
    let coff = lfanew + 4;
    let sections = bytes::u16_le(d, coff + 2);
    let table = coff + 20 + bytes::u16_le(d, coff + 16);
    let headers = table + 40 * sections;
    if coff + 20 <= d.len() {
        assert(bytes::u16_le(e, coff + 2) == sections);
        assert(bytes::u16_le(e, coff + 16) == bytes::u16_le(d, coff + 16));
        if headers <= d.len() {
            trailing::same_pe_sections(d, e, table, sections, headers, 0, headers);
        }
    }
}

/// An ELF file that holds something that cannot belong is judged the same
/// whatever follows it.
/// Data that ends inside the header, and begins wrongly, stays wrong.
pub proof fn after_a_wrong_elf(d: Seq<u8>, e: Seq<u8>)
    requires
        trailing::goes_on(d, e),
        structured::elf_verdict(d).contradicts(),
    ensures
        d.len() >= 24 ==> structured::elf_verdict(e) == structured::elf_verdict(d),
        structured::elf_verdict(e).contradicts(),
{
    if d.len() < 24 {
        trailing::stays_off(d, e, structured::elf_head(), 0);
    } else {
        assert(e.subrange(0, 4) =~= d.subrange(0, 4));
    }
}

// ---------------------------------------------------------------------------
// TIFF
// ---------------------------------------------------------------------------

proof fn broken_stays_broken(
    d: Seq<u8>,
    e: Seq<u8>,
    big: bool,
    ifd: int,
    round: int,
    s: structured::Directories,
    t: structured::Directories,
)
    requires
        trailing::goes_on(d, e),
        0 <= ifd,
        structured::tiff_chain(d, big, ifd, round, s) matches Err(v) && v.contradicts(),
    ensures
        structured::tiff_chain(e, big, ifd, round, t) matches Err(v) && v.contradicts(),
    decreases 64 - round,
{
    let count = bytes::u16_in(d, ifd, big);
    let ifd_end = ifd + 2 + 12 * count + 4;
    if 1 <= count <= 512 {
        let s1 = structured::tiff_entries(
            d,
            big,
            ifd,
            count,
            0,
            structured::Directories {
                end: bytes::larger(s.end, ifd_end),
                own: bytes::larger(s.own, ifd_end),
                ..s
            },
        );
        let t1 = structured::tiff_entries(
            e,
            big,
            ifd,
            count,
            0,
            structured::Directories {
                end: bytes::larger(t.end, ifd_end),
                own: bytes::larger(t.own, ifd_end),
                ..t
            },
        );
        broken_stays_broken(
            d,
            e,
            big,
            bytes::u32_in(d, ifd_end - 4, big),
            round + 1,
            structured::Directories { ifds: s1.ifds + 1, ..s1 },
            structured::Directories { ifds: t1.ifds + 1, ..t1 },
        );
    }
}

/// Whether `t` says what `s` does, but for what lies past the data of `s`.
spec fn says_as_much(s: structured::Directories, t: structured::Directories) -> bool {
    &&& if s.width_past {
        s.width == 0
    } else {
        t.width == s.width && !t.width_past
    }
    &&& if s.height_past {
        s.height == 0
    } else {
        t.height == s.height && !t.height_past
    }
    &&& !s.offsets_past ==> t.strip_offsets == s.strip_offsets && !t.offsets_past
    &&& !s.counts_past ==> t.strip_counts == s.strip_counts && !t.counts_past
}

proof fn stored_values(d: Seq<u8>, e: Seq<u8>, at: int, typ: int, big: bool, k: int, n: int)
    requires
        trailing::goes_on(d, e),
        0 <= at,
        at + 12 <= d.len(),
        0 <= k < n,
        !structured::tiff_past(d, at, typ, n, big),
    ensures
        structured::tiff_value(e, at, typ, k, big) == structured::tiff_value(d, at, typ, k, big),
        !structured::tiff_past(e, at, typ, n, big),
{
    let unit = structured::type_size(typ);
    let count = bytes::u32_in(d, at + 4, big);
    if (typ == 3 || typ == 4) && k < count {
        assert(0 <= k * unit && k * unit + unit <= unit * n && k * unit + unit <= unit * count)
            by (nonlinear_arith)
            requires
                0 <= k < count,
                k < n,
                unit > 0,
        ;
    }
}

proof fn stored_lists(
    d: Seq<u8>,
    e: Seq<u8>,
    at: int,
    typ: int,
    big: bool,
    k: int,
    n: int,
    acc: Seq<int>,
)
    requires
        trailing::goes_on(d, e),
        0 <= at,
        at + 12 <= d.len(),
        0 <= k,
        !structured::tiff_past(d, at, typ, n, big),
    ensures
        structured::tiff_values(e, at, typ, big, k, n, acc) == structured::tiff_values(
            d,
            at,
            typ,
            big,
            k,
            n,
            acc,
        ),
    decreases n - k,
{
    if k < n {
        stored_values(d, e, at, typ, big, k, n);
        stored_lists(
            d,
            e,
            at,
            typ,
            big,
            k + 1,
            n,
            match structured::tiff_value(d, at, typ, k, big) {
                Some(v) => acc.push(v),
                None => acc,
            },
        );
    }
}

proof fn an_entry_says_as_much(
    d: Seq<u8>,
    e: Seq<u8>,
    big: bool,
    at: int,
    s: structured::Directories,
    t: structured::Directories,
)
    requires
        trailing::goes_on(d, e),
        0 <= at,
        at + 12 <= d.len(),
        says_as_much(s, t),
    ensures
        says_as_much(
            structured::tiff_entry(d, big, at, s),
            structured::tiff_entry(e, big, at, t),
        ),
{
    let typ = bytes::u16_in(d, at + 2, big);
    let n = structured::at_most(bytes::u32_in(d, at + 4, big), 4096);
    if !structured::tiff_past(d, at, typ, 1, big) {
        stored_values(d, e, at, typ, big, 0, 1);
    }
    if !structured::tiff_past(d, at, typ, n, big) {
        stored_lists(d, e, at, typ, big, 0, n, s.strip_offsets);
        stored_lists(d, e, at, typ, big, 0, n, s.strip_counts);
    }
}

proof fn entries_say_as_much(
    d: Seq<u8>,
    e: Seq<u8>,
    big: bool,
    ifd: int,
    count: int,
    i: int,
    s: structured::Directories,
    t: structured::Directories,
)
    requires
        trailing::goes_on(d, e),
        0 <= ifd,
        0 <= i,
        ifd + 2 + 12 * count <= d.len(),
        says_as_much(s, t),
    ensures
        says_as_much(
            structured::tiff_entries(d, big, ifd, count, i, s),
            structured::tiff_entries(e, big, ifd, count, i, t),
        ),
    decreases count - i,
{
    if i < count {
        let at = ifd + 2 + 12 * i;
        an_entry_says_as_much(d, e, big, at, s, t);
        entries_say_as_much(
            d,
            e,
            big,
            ifd,
            count,
            i + 1,
            structured::tiff_entry(d, big, at, s),
            structured::tiff_entry(e, big, at, t),
        );
    }
}

proof fn a_chain_says_as_much(
    d: Seq<u8>,
    e: Seq<u8>,
    big: bool,
    ifd: int,
    round: int,
    s: structured::Directories,
    t: structured::Directories,
)
    requires
        trailing::goes_on(d, e),
        0 <= ifd,
        says_as_much(s, t),
        structured::tiff_chain(d, big, ifd, round, s) is Ok,
    ensures
        structured::tiff_chain(e, big, ifd, round, t) matches Ok(f) && says_as_much(
            structured::tiff_chain(d, big, ifd, round, s)->Ok_0,
            f,
        ),
    decreases 64 - round,
{
    if round < 64 && ifd != 0 {
        let count = bytes::u16_in(d, ifd, big);
        let ifd_end = ifd + 2 + 12 * count + 4;
        let s0 = structured::Directories {
            end: bytes::larger(s.end, ifd_end),
            own: bytes::larger(s.own, ifd_end),
            ..s
        };
        let t0 = structured::Directories {
            end: bytes::larger(t.end, ifd_end),
            own: bytes::larger(t.own, ifd_end),
            ..t
        };
        entries_say_as_much(d, e, big, ifd, count, 0, s0, t0);
        let s1 = structured::tiff_entries(d, big, ifd, count, 0, s0);
        let t1 = structured::tiff_entries(e, big, ifd, count, 0, t0);
        a_chain_says_as_much(
            d,
            e,
            big,
            bytes::u32_in(d, ifd_end - 4, big),
            round + 1,
            structured::Directories { ifds: s1.ifds + 1, ..s1 },
            structured::Directories { ifds: t1.ifds + 1, ..t1 },
        );
    }
}

/// A TIFF file that holds something that cannot belong still does, whatever
/// follows it.
pub proof fn after_a_wrong_tiff(d: Seq<u8>, e: Seq<u8>)
    requires
        trailing::goes_on(d, e),
        structured::tiff_verdict(d).contradicts(),
    ensures
        structured::tiff_verdict(e).contradicts(),
{
    let big = d[0] == 0x4D;
    let ifd = bytes::u32_in(d, 4, big);
    let s0 = structured::Directories {
        end: 8,
        own: 8,
        ifds: 0,
        entries: 0,
        width: 0,
        height: 0,
        strip_offsets: Seq::empty(),
        strip_counts: Seq::empty(),
        width_past: false,
        height_past: false,
        offsets_past: false,
        counts_past: false,
    };
    match structured::tiff_chain(d, big, ifd, 0, s0) {
        Err(v) => {
            if v.contradicts() {
                broken_stays_broken(d, e, big, ifd, 0, s0, s0);
            }
        },
        Ok(s) => {
            if d.len() >= 8 {
                a_chain_says_as_much(d, e, big, ifd, 0, s0, s0);
            }
        },
    }
}

// ---------------------------------------------------------------------------
// JPEG
// ---------------------------------------------------------------------------

/// Whether no interval can be too long in what is left of `d` from `since` on.
spec fn never_too_long(d: Seq<u8>, limit: Option<int>, since: int) -> bool {
    limit matches Some(most) ==> most >= d.len() - since
}

proof fn entropy_lasts(
    d: Seq<u8>,
    e: Seq<u8>,
    k: int,
    expected: int,
    since: int,
    limit: Option<int>,
    other: Option<int>,
    verified: int,
    restarts: int,
)
    requires
        trailing::goes_on(d, e),
        !(jpeg::entropy_from(d, k, expected, since, limit, verified, restarts) is Ended),
        limit == other || (never_too_long(d, limit, since) && never_too_long(d, other, since)),
        0 <= since <= k <= d.len(),
    ensures
        jpeg::entropy_from(e, k, expected, since, other, verified, restarts) == jpeg::entropy_from(
            d,
            k,
            expected,
            since,
            limit,
            verified,
            restarts,
        ),
    decreases d.len() - k,
{
    if limit matches Some(most) && k - since > most {
    } else if d[k] != 0xFF {
        entropy_lasts(d, e, k + 1, expected, since, limit, other, verified, restarts);
    } else if d[k + 1] == 0x00 {
        entropy_lasts(d, e, k + 2, expected, since, limit, other, verified, restarts);
    } else if d[k + 1] == 0xFF {
        entropy_lasts(d, e, k + 1, expected, since, limit, other, verified, restarts);
    } else if 0xD0 <= d[k + 1] <= 0xD7 && d[k + 1] - 0xD0 == expected {
        entropy_lasts(
            d,
            e,
            k + 2,
            (expected + 1) % 8,
            k + 2,
            limit,
            other,
            k + 2,
            restarts + 1,
        );
    }
}

/// Whether two walks stand alike in all that decides what contradicts them.
spec fn akin(d: Seq<u8>, s: jpeg::Progress, t: jpeg::Progress) -> bool {
    &&& t.at == s.at >= 0
    &&& t.saw_sof == s.saw_sof
    &&& t.saw_sos == s.saw_sos
    &&& s.interval >= 0
    &&& s.blocks_per_mcu >= 1
    &&& t.blocks_per_mcu >= 1
    &&& d.len() - s.at < 2 || (t.interval == s.interval && (t.blocks_per_mcu == s.blocks_per_mcu
        || d.len() - s.at <= 512))
}

proof fn segment_lasts(
    d: Seq<u8>,
    e: Seq<u8>,
    marker: u8,
    at: int,
    len: int,
    s: jpeg::Progress,
    t: jpeg::Progress,
)
    requires
        trailing::goes_on(d, e),
        akin(d, s, t),
        len >= 2,
        at + len <= d.len(),
        s.at + 2 <= at,
    ensures
        ({
            let x = jpeg::segment(d, marker, at, len, s);
            let y = jpeg::segment(e, marker, at, len, t);
            match x {
                Ok(s1) => y matches Ok(t1) && akin(d, s1, t1) && s1.at == at + len,
                Err(v) => y matches Err(w) && w.contradicts(),
            }
        }),
{
    if marker != 0xDD && jpeg::is_frame(marker) && len >= 8 {
        let components = d[at + 7] as int;
        assert(e[at + 7] == d[at + 7]);
        if components == 1 || components == 3 || components == 4 {
            if at + 9 + 3 * components <= d.len() + 2 {
                trailing::same_samplings(d, e, at, components, components);
            } else {
                assert(d.len() - (at + len) <= 512);
            }
        }
    }
}

proof fn limits_are_kin(d: Seq<u8>, s: jpeg::Progress, t: jpeg::Progress)
    requires
        akin(d, s, t),
        d.len() - s.at >= 2,
    ensures
        jpeg::interval_limit(s) == jpeg::interval_limit(t) || (never_too_long(
            d,
            jpeg::interval_limit(s),
            s.at,
        ) && never_too_long(d, jpeg::interval_limit(t), s.at)),
{
    if s.interval > 0 && s.blocks_per_mcu != t.blocks_per_mcu {
        assert(s.interval * s.blocks_per_mcu * 512 >= 512) by (nonlinear_arith)
            requires
                s.interval >= 1,
                s.blocks_per_mcu >= 1,
        ;
        assert(t.interval * t.blocks_per_mcu * 512 >= 512) by (nonlinear_arith)
            requires
                t.interval >= 1,
                t.blocks_per_mcu >= 1,
        ;
    }
}

proof fn markers_last(d: Seq<u8>, e: Seq<u8>, s: jpeg::Progress, t: jpeg::Progress)
    requires
        trailing::goes_on(d, e),
        akin(d, s, t),
        jpeg::markers_from(d, s).contradicts(),
    ensures
        jpeg::markers_from(e, t).contradicts(),
    decreases d.len() - s.at,
{
    jpeg::fill_moves_on(d, s.at);
    let j = jpeg::past_fill(d, s.at);
    let at = j + 1;
    assert(j < d.len());
    trailing::same_fill(d, e, s.at);
    let marker = d[j];
    if j == s.at || marker == 0xD9 || marker == 0xD8 {
    } else if marker == 0x01 || 0xD0 <= marker <= 0xD7 {
        markers_last(d, e, jpeg::Progress { at, ..s }, jpeg::Progress { at, ..t });
    } else {
        let len = bytes::u16_be(d, at);
        assert(bytes::u16_be(e, at) == len);
        if len >= 2 {
            segment_lasts(d, e, marker, at, len, s, t);
            if let Ok(s1) = jpeg::segment(d, marker, at, len, s) {
                let t1 = jpeg::segment(e, marker, at, len, t)->Ok_0;
                if marker == 0xDA {
                    jpeg::entropy_moves_on(
                        d,
                        s1.at,
                        0,
                        s1.at,
                        jpeg::interval_limit(s1),
                        s1.verified,
                        s1.restarts,
                    );
                    scans_last(d, e, s1, t1);
                    if let Ok(s2) = jpeg::scanned(d, s1) {
                        let t2 = jpeg::scanned(e, t1)->Ok_0;
                        markers_last(d, e, s2, t2);
                    }
                } else {
                    markers_last(d, e, s1, t1);
                }
            }
        }
    }
}

proof fn scans_last(d: Seq<u8>, e: Seq<u8>, s: jpeg::Progress, t: jpeg::Progress)
    requires
        trailing::goes_on(d, e),
        akin(d, s, t),
        s.at <= d.len(),
        jpeg::scanned(d, s) matches Err(v) ==> v.contradicts(),
    ensures
        match jpeg::scanned(d, s) {
            Ok(s2) => jpeg::scanned(e, t) matches Ok(t2) && akin(d, s2, t2),
            Err(v) => jpeg::scanned(e, t) matches Err(w) && w.contradicts(),
        },
{
    let limit = jpeg::interval_limit(s);
    let other = jpeg::interval_limit(t);
    jpeg::entropy_moves_on(d, s.at, 0, s.at, limit, s.verified, s.restarts);
    if d.len() - s.at < 2 {
        if s.interval > 0 {
            assert(s.interval * s.blocks_per_mcu * 512 >= 0) by (nonlinear_arith)
                requires
                    s.interval >= 1,
                    s.blocks_per_mcu >= 1,
            ;
        }
        assert(jpeg::entropy_from(d, s.at, 0, s.at, limit, s.verified, s.restarts) is Ended);
    } else {
        limits_are_kin(d, s, t);
        entropy_lasts(d, e, s.at, 0, s.at, limit, other, s.verified, s.restarts);
        entropy_is_shaped(e, s.at, 0, s.at, other, s.verified, s.restarts, t.verified, t.restarts);
    }
}

/// What stops a scan does not depend on what was counted before it.
proof fn entropy_is_shaped(
    d: Seq<u8>,
    k: int,
    expected: int,
    since: int,
    limit: Option<int>,
    verified: int,
    restarts: int,
    v: int,
    r: int,
)
    ensures
        match jpeg::entropy_from(d, k, expected, since, limit, verified, restarts) {
            jpeg::Scan::Marker { at, .. } => jpeg::entropy_from(
                d,
                k,
                expected,
                since,
                limit,
                v,
                r,
            ) matches jpeg::Scan::Marker { at: to, .. } && to == at,
            jpeg::Scan::Spliced { .. } => jpeg::entropy_from(
                d,
                k,
                expected,
                since,
                limit,
                v,
                r,
            ) is Spliced,
            jpeg::Scan::OutOfSequence { .. } => jpeg::entropy_from(
                d,
                k,
                expected,
                since,
                limit,
                v,
                r,
            ) is OutOfSequence,
            jpeg::Scan::Ended { .. } => true,
        },
    decreases d.len() - k,
{
    if limit matches Some(most) && k - since > most {
    } else if k < 0 || k + 1 >= d.len() {
    } else if d[k] != 0xFF {
        entropy_is_shaped(d, k + 1, expected, since, limit, verified, restarts, v, r);
    } else if d[k + 1] == 0x00 {
        entropy_is_shaped(d, k + 2, expected, since, limit, verified, restarts, v, r);
    } else if d[k + 1] == 0xFF {
        entropy_is_shaped(d, k + 1, expected, since, limit, verified, restarts, v, r);
    } else if 0xD0 <= d[k + 1] <= 0xD7 && d[k + 1] - 0xD0 == expected {
        entropy_is_shaped(
            d,
            k + 2,
            (expected + 1) % 8,
            k + 2,
            limit,
            k + 2,
            restarts + 1,
            k + 2,
            r + 1,
        );
    }
}

/// A JPEG that holds something that cannot belong still does, whatever follows
/// it.
pub proof fn after_a_wrong_jpeg(d: Seq<u8>, e: Seq<u8>)
    requires
        trailing::goes_on(d, e),
        jpeg::verdict(d).contradicts(),
    ensures
        jpeg::verdict(e).contradicts(),
{
    let s = jpeg::Progress {
        at: 2,
        saw_sof: false,
        saw_sos: false,
        width: 0,
        height: 0,
        components: 0,
        restarts: 0,
        interval: 0,
        blocks_per_mcu: 1,
        segments: 0,
        verified: 2,
    };
    if jpeg::markers_from(d, s).contradicts() {
        markers_last(d, e, s, s);
    }
}

// ---------------------------------------------------------------------------
// MP4
// ---------------------------------------------------------------------------

/// Whether the headers of the boxes in `[i, end)` are there whole.
pub open spec fn heads_there(d: Seq<u8>, i: int, end: int) -> bool
    decreases end - i,
{
    if i < 0 || i + 8 > end {
        true
    } else {
        match mp4::box_size(d, i, end) {
            None => false,
            Some((size, header)) => if size < header || i + size > u64::MAX {
                true
            } else {
                heads_there(
                    d,
                    if i + size <= end {
                        i + size
                    } else {
                        end
                    },
                    end,
                )
            },
        }
    }
}

/// Whether what is in a box, where there is one, can be listed.
pub open spec fn opened(d: Seq<u8>, range: Option<(int, int)>) -> bool {
    range matches Some(r) ==> heads_there(d, r.0, r.1)
}

/// Whether the first `n` bytes of a table, where there is one, are there.
pub open spec fn table_there(d: Seq<u8>, range: Option<(int, int)>, n: int) -> bool {
    range matches Some(r) ==> r.0 + n <= d.len()
}

/// Whether the tables of a track are read without any byte past the data.
pub open spec fn track_there(d: Seq<u8>, trak: (int, int)) -> bool {
    let mdia = mp4::child(d, Some(trak), 0x6D64_6961);
    let minf = mp4::child(d, mdia, 0x6D69_6E66);
    let stbl = mp4::child(d, minf, 0x7374_626C);
    &&& opened(d, Some(trak))
    &&& opened(d, mdia)
    &&& opened(d, minf)
    &&& opened(d, stbl)
    &&& table_there(d, mp4::child(d, stbl, 0x7374_7364), 16)
    &&& table_there(d, mp4::child(d, stbl, 0x7374_737A), 12)
    &&& table_there(d, mp4::child(d, stbl, 0x7374_636F), 8)
    &&& table_there(d, mp4::child(d, stbl, 0x636F_3634), 8)
    &&& table_there(d, mp4::child(d, stbl, 0x7374_7363), 8)
}

/// Whether the index is read without any byte past the data.
pub open spec fn tracks_there(d: Seq<u8>, moov: (int, int)) -> bool {
    let traks = mp4::children(d, moov.0, moov.1, 0x7472_616B);
    &&& heads_there(d, moov.0, moov.1)
    &&& forall|i: int| 0 <= i < traks.len() ==> track_there(d, #[trigger] traks[i])
}

proof fn same_children(d: Seq<u8>, e: Seq<u8>, i: int, end: int, want: int)
    requires
        trailing::goes_on(d, e),
        end <= d.len(),
        heads_there(d, i, end),
    ensures
        mp4::children(e, i, end, want) == mp4::children(d, i, end, want),
        forall|k: int|
            0 <= k < mp4::children(d, i, end, want).len() ==> {
                let r = #[trigger] mp4::children(d, i, end, want)[k];
                0 <= r.0 && r.1 <= end
            },
    decreases end - i,
{
    if i >= 0 && i + 8 <= end {
        assert(mp4::box_size(e, i, end) == mp4::box_size(d, i, end));
        let (size, header) = mp4::box_size(d, i, end)->Some_0;
        if size >= header && i + size <= u64::MAX {
            let stop = if i + size <= end {
                i + size
            } else {
                end
            };
            same_children(d, e, stop, end, want);
            assert(bytes::u32_be(e, i + 4) == bytes::u32_be(d, i + 4));
        }
    }
}

proof fn same_child(d: Seq<u8>, e: Seq<u8>, range: Option<(int, int)>, want: int)
    requires
        trailing::goes_on(d, e),
        range matches Some(r) ==> r.1 <= d.len(),
        opened(d, range),
    ensures
        mp4::child(e, range, want) == mp4::child(d, range, want),
        mp4::child(d, range, want) matches Some(r) ==> 0 <= r.0 && r.1 <= d.len(),
{
    if let Some(r) = range {
        same_children(d, e, r.0, r.1, want);
        let all = mp4::children(d, r.0, r.1, want);
        if all.len() > 0 {
            assert(all[0].1 <= r.1);
        }
    }
}

proof fn same_sizes(d: Seq<u8>, e: Seq<u8>, stbl: (int, int))
    requires
        trailing::goes_on(d, e),
        stbl.1 <= d.len(),
        opened(d, Some(stbl)),
        table_there(d, mp4::child(d, Some(stbl), 0x7374_737A), 12),
    ensures
        mp4::sample_sizes(e, stbl) == mp4::sample_sizes(d, stbl),
        mp4::sample_sizes(d, stbl) matches Some(s) ==> forall|k: int|
            0 <= k < s.len() ==> #[trigger] s[k] >= 0,
{
    same_child(d, e, Some(stbl), 0x7374_737A);
    if let Some((body, end)) = mp4::child(d, Some(stbl), 0x7374_737A) {
        let count = bytes::u32_be(d, body + 8);
        let n = mp4::table_len(count, body + 12, 4, end);
        assert forall|k: int| 0 <= k < n implies #[trigger] bytes::u32_be(e, body + 12 + 4 * k)
            == bytes::u32_be(d, body + 12 + 4 * k) by {
            assert(body + 12 + 4 * k + 4 <= end);
        }
        if bytes::u32_be(d, body + 4) == 0 {
            assert(mp4::sample_sizes(e, stbl)->Some_0 =~= mp4::sample_sizes(d, stbl)->Some_0);
        } else {
            assert(mp4::sample_sizes(e, stbl)->Some_0 =~= mp4::sample_sizes(d, stbl)->Some_0);
        }
    }
}

proof fn same_offsets(d: Seq<u8>, e: Seq<u8>, stbl: (int, int))
    requires
        trailing::goes_on(d, e),
        stbl.1 <= d.len(),
        opened(d, Some(stbl)),
        table_there(d, mp4::child(d, Some(stbl), 0x7374_636F), 8),
        table_there(d, mp4::child(d, Some(stbl), 0x636F_3634), 8),
    ensures
        mp4::chunk_offsets(e, stbl) == mp4::chunk_offsets(d, stbl),
        mp4::chunk_offsets(d, stbl) matches Some(s) ==> forall|k: int|
            0 <= k < s.len() ==> #[trigger] s[k] >= 0,
{
    same_child(d, e, Some(stbl), 0x7374_636F);
    same_child(d, e, Some(stbl), 0x636F_3634);
    match mp4::child(d, Some(stbl), 0x7374_636F) {
        Some((body, end)) => {
            let n = mp4::table_len(bytes::u32_be(d, body + 4), body + 8, 4, end);
            assert forall|k: int| 0 <= k < n implies #[trigger] bytes::u32_be(e, body + 8 + 4 * k)
                == bytes::u32_be(d, body + 8 + 4 * k) by {
                assert(body + 8 + 4 * k + 4 <= end);
            }
            assert(mp4::chunk_offsets(e, stbl)->Some_0 =~= mp4::chunk_offsets(d, stbl)->Some_0);
        },
        None => {
            if let Some((body, end)) = mp4::child(d, Some(stbl), 0x636F_3634) {
                let n = mp4::table_len(bytes::u32_be(d, body + 4), body + 8, 8, end);
                assert forall|k: int| 0 <= k < n implies #[trigger] bytes::u64_be(
                    e,
                    body + 8 + 8 * k,
                ) == bytes::u64_be(d, body + 8 + 8 * k) by {
                    assert(body + 8 + 8 * k + 8 <= end);
                }
                assert(mp4::chunk_offsets(e, stbl)->Some_0 =~= mp4::chunk_offsets(d, stbl)->Some_0);
            }
        },
    }
}

proof fn same_runs(d: Seq<u8>, e: Seq<u8>, stbl: (int, int))
    requires
        trailing::goes_on(d, e),
        stbl.1 <= d.len(),
        opened(d, Some(stbl)),
        table_there(d, mp4::child(d, Some(stbl), 0x7374_7363), 8),
    ensures
        mp4::chunk_runs(e, stbl) == mp4::chunk_runs(d, stbl),
{
    same_child(d, e, Some(stbl), 0x7374_7363);
    if let Some((body, end)) = mp4::child(d, Some(stbl), 0x7374_7363) {
        let n = mp4::table_len(bytes::u32_be(d, body + 4), body + 8, 12, end);
        assert forall|k: int| 0 <= k < n implies #[trigger] bytes::u32_be(e, body + 8 + 12 * k)
            == bytes::u32_be(d, body + 8 + 12 * k) && bytes::u32_be(e, body + 12 + 12 * k)
            == bytes::u32_be(d, body + 12 + 12 * k) by {
            assert(body + 8 + 12 * k + 12 <= end);
        }
        if n != 0 {
            assert(mp4::chunk_runs(e, stbl)->Some_0 =~= mp4::chunk_runs(d, stbl)->Some_0);
        }
    }
}

proof fn same_width(d: Seq<u8>, e: Seq<u8>, stbl: (int, int))
    requires
        trailing::goes_on(d, e),
        stbl.1 <= d.len(),
        opened(d, Some(stbl)),
        table_there(d, mp4::child(d, Some(stbl), 0x7374_7364), 16),
    ensures
        mp4::nal_width(e, stbl) == mp4::nal_width(d, stbl),
{
    same_child(d, e, Some(stbl), 0x7374_7364);
    if let Some((body, end)) = mp4::child(d, Some(stbl), 0x7374_7364) {
        let entry = body + 8;
        let size = bytes::u32_be(d, entry);
        let stop = if entry + size <= end {
            entry + size
        } else {
            end
        };
        if stop >= entry {
            trailing::same_part(d, e, entry, stop);
        }
    }
}

proof fn same_track(d: Seq<u8>, e: Seq<u8>, trak: (int, int), number: int)
    requires
        trailing::goes_on(d, e),
        trak.1 <= d.len(),
        track_there(d, trak),
    ensures
        mp4::track_at(e, trak, number) == mp4::track_at(d, trak, number),
        mp4::track_at(d, trak, number) matches Some(t) ==> {
            &&& forall|k: int| 0 <= k < t.sizes.len() ==> #[trigger] t.sizes[k] >= 0
            &&& forall|k: int| 0 <= k < t.chunks.len() ==> #[trigger] t.chunks[k] >= 0
        },
{
    let mdia = mp4::child(d, Some(trak), 0x6D64_6961);
    let minf = mp4::child(d, mdia, 0x6D69_6E66);
    same_child(d, e, Some(trak), 0x6D64_6961);
    same_child(d, e, mdia, 0x6D69_6E66);
    same_child(d, e, minf, 0x7374_626C);
    if let Some(stbl) = mp4::child(d, minf, 0x7374_626C) {
        same_width(d, e, stbl);
        same_sizes(d, e, stbl);
        same_offsets(d, e, stbl);
        same_runs(d, e, stbl);
    }
}

proof fn same_chunk(
    d: Seq<u8>,
    e: Seq<u8>,
    t: mp4::Track,
    pos: int,
    left: int,
    sample: int,
    checked: mp4::Count,
)
    requires
        trailing::goes_on(d, e),
        0 <= pos,
        forall|k: int| 0 <= k < t.sizes.len() ==> #[trigger] t.sizes[k] >= 0,
        !(mp4::chunk_from(d, t, pos, left, sample, checked) matches Err(s) && s is Checked),
    ensures
        mp4::chunk_from(e, t, pos, left, sample, checked) == mp4::chunk_from(
            d,
            t,
            pos,
            left,
            sample,
            checked,
        ),
    decreases left,
{
    if left > 0 && 0 <= sample < t.sizes.len() {
        let end = pos + t.sizes[sample];
        if end <= d.len() {
            trailing::same_part(d, e, pos, end);
            if mp4::tiles_from(d.subrange(pos, end), 0, t.width) && checked.samples + 1
                < mp4::MAX_SAMPLES {
                let more = mp4::Count { samples: checked.samples + 1, end };
                same_chunk(d, e, t, end, left - 1, sample + 1, more);
            }
        }
    }
}

proof fn same_chunks(
    d: Seq<u8>,
    e: Seq<u8>,
    t: mp4::Track,
    k: int,
    run: int,
    sample: int,
    checked: mp4::Count,
)
    requires
        trailing::goes_on(d, e),
        forall|k: int| 0 <= k < t.sizes.len() ==> #[trigger] t.sizes[k] >= 0,
        forall|k: int| 0 <= k < t.chunks.len() ==> #[trigger] t.chunks[k] >= 0,
        !(mp4::chunks_from(d, t, k, run, sample, checked) matches Err(s) && s is Checked),
    ensures
        mp4::chunks_from(e, t, k, run, sample, checked) == mp4::chunks_from(
            d,
            t,
            k,
            run,
            sample,
            checked,
        ),
    decreases t.chunks.len() - k,
{
    if 0 <= k < t.chunks.len() {
        let r = mp4::run_of(t.runs, run, k);
        same_chunk(d, e, t, t.chunks[k], t.runs[r].1, sample, checked);
        if let Ok((next, done)) = mp4::chunk_from(
            d,
            t,
            t.chunks[k],
            t.runs[r].1,
            sample,
            checked,
        ) {
            same_chunks(d, e, t, k + 1, r, next, done);
        }
    }
}

proof fn same_tracks(
    d: Seq<u8>,
    e: Seq<u8>,
    traks: Seq<(int, int)>,
    i: int,
    any: bool,
    checked: mp4::Count,
)
    requires
        trailing::goes_on(d, e),
        forall|k: int|
            0 <= k < traks.len() ==> (#[trigger] traks[k]).1 <= d.len() && track_there(d, traks[k]),
        mp4::tracks_from(d, traks, i, any, checked) is Spliced,
    ensures
        mp4::tracks_from(e, traks, i, any, checked) is Spliced,
    decreases traks.len() - i,
{
    if 0 <= i < traks.len() {
        same_track(d, e, traks[i], i + 1);
        match mp4::track_at(d, traks[i], i + 1) {
            None => same_tracks(d, e, traks, i + 1, any, checked),
            Some(t) => {
                same_chunks(d, e, t, 0, 0, 0, checked);
                if let Ok(done) = mp4::chunks_from(d, t, 0, 0, 0, checked) {
                    same_tracks(d, e, traks, i + 1, true, done);
                }
            },
        }
    }
}

/// A sample that does not divide into NAL units still does not.
proof fn splices_last(d: Seq<u8>, e: Seq<u8>, moov: (int, int))
    requires
        trailing::goes_on(d, e),
        4 <= d.len(),
        moov.1 <= d.len(),
        tracks_there(d, moov),
        mp4::samples_of(d, moov) is Spliced,
    ensures
        mp4::samples_of(e, moov) is Spliced,
{
    let traks = mp4::children(d, moov.0, moov.1, 0x7472_616B);
    same_children(d, e, moov.0, moov.1, 0x7472_616B);
    assert forall|k: int| 0 <= k < traks.len() implies (#[trigger] traks[k]).1 <= d.len()
        && track_there(d, traks[k]) by {}
    same_tracks(d, e, traks, 0, false, mp4::none_yet(d));
}

/// A walk that stops at what is no box stops there whatever follows.
proof fn walk_stops(d: Seq<u8>, e: Seq<u8>, s: mp4::Progress)
    requires
        trailing::goes_on(d, e),
        e.len() <= u64::MAX,
        0 <= s.at,
        s.cut is None,
        mp4::boxes_from(d, s).cut is None,
        mp4::boxes_from(d, s).at < d.len(),
    ensures
        ({
            let a = mp4::boxes_from(d, s);
            let b = mp4::boxes_from(e, s);
            &&& b.at == a.at
            &&& b.cut is None
            &&& b.boxes == a.boxes
            &&& b.saw_moov == a.saw_moov
            &&& b.saw_mdat == a.saw_mdat
        }),
    decreases d.len() - s.at,
{
    if s.at + 8 <= d.len() {
        trailing::same_print(d, e, s.at + 4);
        if mp4::printable(d, s.at + 4) {
            if let Some((size, header)) = mp4::box_size(d, s.at, d.len() as int) {
                let next = mp4::Progress { at: s.at + size, ..mp4::counted(d, s, size, header) };
                if size >= header && s.at + size <= d.len() {
                    walk_stops(d, e, next);
                    assert(mp4::counted(e, s, size, header) == mp4::counted(d, s, size, header));
                }
            }
        }
    }
}

proof fn index_stays_inside(d: Seq<u8>, s: mp4::Progress)
    requires
        0 <= s.at,
        s.moov matches Some(m) ==> m.1 <= d.len(),
    ensures
        mp4::boxes_from(d, s).moov matches Some(m) ==> m.1 <= d.len(),
    decreases d.len() - s.at,
{
    if s.at + 8 <= d.len() && mp4::printable(d, s.at + 4) {
        if let Some((size, header)) = mp4::box_size(d, s.at, d.len() as int) {
            if size >= header && s.at + size <= d.len() {
                index_stays_inside(
                    d,
                    mp4::Progress { at: s.at + size, ..mp4::counted(d, s, size, header) },
                );
            }
        }
    }
}

/// An MP4 file that holds something that cannot belong still does, whatever
/// follows it. Where that is a sample that does not divide into NAL units, the
/// file's boxes all state their size, its index is read without any byte past
/// the data, and what follows does not begin as a box does.
pub proof fn after_a_wrong_mp4(d: Seq<u8>, e: Seq<u8>)
    requires
        trailing::goes_on(d, e),
        e.len() <= u64::MAX,
        mp4::verdict(d).contradicts(),
        ({
            let s = mp4::boxes_from(d, mp4::start());
            16 <= d.len() < e.len() && s.saw_moov && s.saw_mdat ==> {
                &&& trailing::sizes_stated(d, mp4::start())
                &&& trailing::no_box(e, s.at)
                &&& s.moov matches Some(moov) ==> tracks_there(d, moov)
            }
        }),
    ensures
        mp4::verdict(e).contradicts(),
{
    if d.len() == e.len() {
        assert(d =~= e);
    } else if d.len() >= 16 {
        let s = mp4::boxes_from(d, mp4::start());
        trailing::same_print(d, e, 8);
        index_stays_inside(d, mp4::start());
        if s.cut is None && s.saw_moov && s.saw_mdat {
            trailing::same_boxes(d, e, mp4::start());
            if let Some(moov) = s.moov {
                if mp4::samples_of(d, moov) is Spliced {
                    splices_last(d, e, moov);
                }
            }
        } else if s.cut is None && s.at < d.len() {
            walk_stops(d, e, mp4::start());
        }
    }
}

} // verus!
